use vstd::prelude::*;

use crate::find::{first_match, first_match_facts};
use crate::kinds::MemoryStatus;
use crate::memory::{models, MemoryModel, MemoryRecord};
use crate::order::{
    arranged, arranged_facts, comes_before, descending, filter_values, has_stable_order,
    place_order, places, stable_order, stable_order_exists, stable_positions, Place, SortKey,
};
use crate::recall::{distinct_ids, filter_distinct};
use crate::table::{grows_into, slots_unique};
use crate::text::same_text;

verus! {

/// A memory that goes out of use, and the one that is kept in its place.
#[derive(Debug)]
pub struct Replacement {
    pub id: String,
    pub keeper: String,
}

/// What a `Replacement` says.
#[verifier::ext_equal]
pub struct ReplacementModel {
    pub id: Seq<char>,
    pub keeper: Seq<char>,
}

impl View for Replacement {
    type V = ReplacementModel;

    open spec fn view(&self) -> ReplacementModel {
        ReplacementModel { id: self.id@, keeper: self.keeper@ }
    }
}

/// What a list of replacements says.
pub open spec fn replacement_models(list: Seq<Replacement>) -> Seq<ReplacementModel> {
    Seq::new(list.len(), |i: int| list[i]@)
}

impl MemoryModel {
    /// Whether the memory is in use in exactly this workspace.
    pub open spec fn in_use(self, namespace: Seq<char>, workspace_id: Seq<char>) -> bool {
        self.status == MemoryStatus::Active && self.namespace == namespace && self.workspace_id
            == workspace_id
    }
}

/// The memories in use in the workspace.
pub open spec fn rows_in_use(
    rows: Seq<MemoryModel>,
    namespace: Seq<char>,
    workspace_id: Seq<char>,
) -> Seq<MemoryModel> {
    rows.filter(|m: MemoryModel| m.in_use(namespace, workspace_id))
}

/// Which of two memories is kept: a pinned one, then the more important, then the one that was
/// changed last.
pub open spec fn salience(m: MemoryModel) -> Place {
    Place {
        first: if m.pinned {
            0
        } else {
            1
        },
        second: -1 - m.importance.order(),
        third: -1 - m.updated_at,
        fourth: 0,
        text: Seq::empty(),
    }
}

/// The places of the memories.
pub open spec fn salience_places(rows: Seq<MemoryModel>) -> Seq<Place> {
    Seq::new(rows.len(), |i: int| salience(rows[i]))
}

/// The memories, the most salient first; equally salient ones as they are listed.
pub open spec fn by_salience(rows: Seq<MemoryModel>) -> Seq<MemoryModel> {
    arranged(rows, salience_places(rows))
}

fn salience_key(memory: &MemoryRecord) -> (r: SortKey)
    ensures
        r@ == salience(memory@),
{
    let r = SortKey {
        first: if memory.pinned {
            0
        } else {
            1
        },
        second: descending(memory.importance.order_key()),
        third: descending(memory.updated_at),
        fourth: 0,
        text: Vec::new(),
    };
    assert(r@.text =~= Seq::<char>::empty());
    r
}

/// Lists memories, the most salient first; equally salient ones as they are listed.
pub(crate) fn sort_by_salience(rows: &Vec<MemoryRecord>) -> (r: Vec<MemoryRecord>)
    ensures
        models(r@) == by_salience(models(rows@)),
        has_stable_order(salience_places(models(rows@))),
{
    let ghost all = models(rows@);
    let mut keys: Vec<SortKey> = Vec::new();
    let mut i: usize = 0;
    while i < rows.len()
        invariant
            i <= rows@.len(),
            keys@.len() == i,
            all == models(rows@),
            forall|k: int| 0 <= k < i ==> (#[trigger] keys@[k])@ == salience(all[k]),
        decreases rows@.len() - i,
    {
        keys.push(salience_key(&rows[i]));
        i += 1;
    }
    assert(places(keys@) =~= salience_places(all));
    let order = stable_order(&keys);
    let ghost sorted = by_salience(all);
    let mut out: Vec<MemoryRecord> = Vec::new();
    let mut n: usize = 0;
    while n < order.len()
        invariant
            n <= order@.len(),
            order@.len() == rows@.len() == all.len(),
            all == models(rows@),
            sorted == by_salience(all),
            order@ == stable_positions(salience_places(all)),
            forall|k: int| 0 <= k < order@.len() ==> (#[trigger] order@[k]) < rows@.len(),
            out@.len() == n,
            forall|k: int| 0 <= k < n ==> (#[trigger] models(out@)[k]) == sorted[k],
        decreases order@.len() - n,
    {
        let ghost before = models(out@);
        out.push(rows[order[n]].clone());
        assert(models(out@) =~= before.push(all[order@[n as int] as int]));
        n += 1;
    }
    assert(models(out@) =~= sorted);
    out
}

/// The first memory of the list with the same content.
pub open spec fn keeper_of(list: Seq<MemoryModel>, hash: Seq<char>) -> Option<int> {
    first_match(list, |m: MemoryModel| m.content_hash == hash)
}

/// Each memory of the list whose content stands there already, with the first that has it.
pub open spec fn replacements(list: Seq<MemoryModel>) -> Seq<ReplacementModel>
    decreases list.len(),
{
    if list.len() == 0 {
        Seq::empty()
    } else {
        let before = replacements(list.drop_last());
        match keeper_of(list.drop_last(), list.last().content_hash) {
            Some(k) => before.push(
                ReplacementModel { id: list.last().id, keeper: list[k].id },
            ),
            None => before,
        }
    }
}

/// The replacements that a workspace needs.
pub open spec fn needed(
    rows: Seq<MemoryModel>,
    namespace: Seq<char>,
    workspace_id: Seq<char>,
) -> Seq<ReplacementModel> {
    replacements(by_salience(rows_in_use(rows, namespace, workspace_id)))
}

fn find_keeper(list: &Vec<MemoryRecord>, n: usize) -> (r: Option<usize>)
    requires
        n < list@.len(),
    ensures
        match r {
            Some(k) => k < n && keeper_of(
                models(list@).take(n as int),
                models(list@)[n as int].content_hash,
            ) == Some(k as int),
            None => keeper_of(
                models(list@).take(n as int),
                models(list@)[n as int].content_hash,
            ) is None,
        },
{
    let ghost head = models(list@).take(n as int);
    let ghost hash = models(list@)[n as int].content_hash;
    let ghost p = |m: MemoryModel| m.content_hash == hash;
    proof {
        first_match_facts(head, p);
    }
    let mut k: usize = 0;
    while k < n
        invariant
            k <= n < list@.len(),
            head == models(list@).take(n as int),
            hash == models(list@)[n as int].content_hash,
            p == (|m: MemoryModel| m.content_hash == hash),
            forall|j: int| 0 <= j < k ==> !p(#[trigger] head[j]),
            first_match(head, p) matches Some(i) ==> 0 <= i < head.len() && p(head[i]) && forall|
                j: int,
            |
                0 <= j < i ==> !p(#[trigger] head[j]),
            first_match(head, p) is None ==> forall|j: int|
                0 <= j < head.len() ==> !p(#[trigger] head[j]),
        decreases n - k,
    {
        assert(head[k as int] == list@[k as int]@);
        if same_text(list[k].content_hash.as_str(), list[n].content_hash.as_str()) {
            assert(p(head[k as int]));
            return Some(k);
        }
        assert(!p(head[k as int]));
        k += 1;
    }
    None
}

/// Finds the memories in use whose content is in use more than once, and the one that is kept of
/// each.
pub fn plan_consolidation(
    rows: &Vec<MemoryRecord>,
    namespace: &str,
    workspace_id: &str,
) -> (r: Vec<Replacement>)
    ensures
        replacement_models(r@) == needed(models(rows@), namespace@, workspace_id@),
        has_stable_order(salience_places(rows_in_use(models(rows@), namespace@, workspace_id@))),
{
    let ghost all = models(rows@);
    let mut used: Vec<MemoryRecord> = Vec::new();
    let mut i: usize = 0;
    reveal(Seq::filter);
    assert(models(used@) =~= rows_in_use(all.take(0), namespace@, workspace_id@));
    while i < rows.len()
        invariant
            i <= rows@.len(),
            all == models(rows@),
            models(used@) == rows_in_use(all.take(i as int), namespace@, workspace_id@),
        decreases rows@.len() - i,
    {
        proof {
            reveal(Seq::filter);
            assert(all.take(i + 1).drop_last() =~= all.take(i as int));
        }
        let row = &rows[i];
        if row.status == MemoryStatus::Active && same_text(row.namespace.as_str(), namespace)
            && same_text(row.workspace_id.as_str(), workspace_id) {
            let ghost before = models(used@);
            used.push(row.clone());
            assert(models(used@) =~= before.push(all[i as int]));
        }
        i += 1;
    }
    assert(all.take(all.len() as int) =~= all);
    let list = sort_by_salience(&used);
    let ghost sorted = models(list@);
    let mut out: Vec<Replacement> = Vec::new();
    let mut n: usize = 0;
    assert(replacement_models(out@) =~= replacements(sorted.take(0)));
    while n < list.len()
        invariant
            n <= list@.len(),
            sorted == models(list@),
            replacement_models(out@) == replacements(sorted.take(n as int)),
        decreases list@.len() - n,
    {
        assert(sorted.take(n + 1).drop_last() =~= sorted.take(n as int));
        match find_keeper(&list, n) {
            Some(k) => {
                let ghost before = replacement_models(out@);
                out.push(Replacement { id: list[n].id.clone(), keeper: list[k].id.clone() });
                assert(replacement_models(out@) =~= before.push(
                    ReplacementModel { id: sorted[n as int].id, keeper: sorted[k as int].id },
                ));
            },
            None => {},
        }
        n += 1;
    }
    assert(sorted.take(sorted.len() as int) =~= sorted);
    out
}

/// What is kept in the place of the memory.
pub open spec fn kept_instead(list: Seq<ReplacementModel>, id: Seq<char>) -> Option<Seq<char>>
    decreases list.len(),
{
    if list.len() == 0 {
        None
    } else if list.last().id == id {
        Some(list.last().keeper)
    } else {
        kept_instead(list.drop_last(), id)
    }
}

/// The memory after the replacements were made.
pub open spec fn retired(m: MemoryModel, list: Seq<ReplacementModel>, now: i64) -> MemoryModel {
    match kept_instead(list, m.id) {
        Some(keeper) => if m.status == MemoryStatus::Active {
            m.with_status(MemoryStatus::Superseded, Some(keeper), now)
        } else {
            m
        },
        None => m,
    }
}

/// The table after the replacements were made.
pub open spec fn retired_rows(
    rows: Seq<MemoryModel>,
    list: Seq<ReplacementModel>,
    now: i64,
) -> Seq<MemoryModel> {
    rows.map_values(|m: MemoryModel| retired(m, list, now))
}

fn find_replacement(list: &Vec<Replacement>, id: &str) -> (r: Option<usize>)
    ensures
        match r {
            Some(k) => k < list@.len() && kept_instead(replacement_models(list@), id@) == Some(
                replacement_models(list@)[k as int].keeper,
            ),
            None => kept_instead(replacement_models(list@), id@) is None,
        },
{
    let ghost all = replacement_models(list@);
    let mut k: usize = list.len();
    assert(all.take(k as int) =~= all);
    while k > 0
        invariant
            k <= list@.len(),
            all == replacement_models(list@),
            kept_instead(all, id@) == kept_instead(all.take(k as int), id@),
        decreases k,
    {
        assert(all.take(k as int).last() == all[k - 1]);
        assert(all.take(k as int).drop_last() =~= all.take(k - 1));
        k -= 1;
        if same_text(list[k].id.as_str(), id) {
            return Some(k);
        }
    }
    None
}

/// The memory after the replacements were made at `now`.
pub fn retire(memory: MemoryRecord, list: &Vec<Replacement>, now: i64) -> (r: MemoryRecord)
    ensures
        r@ == retired(memory@, replacement_models(list@), now),
{
    match find_replacement(list, memory.id.as_str()) {
        Some(k) => if memory.status == MemoryStatus::Active {
            memory.set_status(MemoryStatus::Superseded, Some(list[k].keeper.clone()), now)
        } else {
            memory
        },
        None => memory,
    }
}

/// A memory is replaced exactly when its content stands earlier in the list.
proof fn replacement_listed(list: Seq<MemoryModel>, b: int)
    requires
        0 <= b < list.len(),
        keeper_of(list.take(b), list[b].content_hash) is Some,
    ensures
        kept_instead(replacements(list), list[b].id) is Some,
    decreases list.len(),
{
    let init = list.drop_last();
    if b < list.len() - 1 {
        assert(init.take(b) =~= list.take(b));
        replacement_listed(init, b);
        match keeper_of(init, list.last().content_hash) {
            Some(k) => {
                let more = ReplacementModel { id: list.last().id, keeper: list[k].id };
                assert(replacements(init).push(more).drop_last() =~= replacements(init));
            },
            None => {},
        }
    } else {
        assert(init =~= list.take(b));
    }
}

/// What is replaced has the content of its keeper, which stands before it and is not replaced.
proof fn replacement_source(list: Seq<MemoryModel>, id: Seq<char>) -> (r: (int, int))
    requires
        kept_instead(replacements(list), id) is Some,
    ensures
        0 <= r.0 < r.1 < list.len(),
        list[r.1].id == id,
        kept_instead(replacements(list), id) == Some(list[r.0].id),
        list[r.0].content_hash == list[r.1].content_hash,
        keeper_of(list.take(r.0), list[r.0].content_hash) is None,
    decreases list.len(),
{
    let init = list.drop_last();
    let hash = list.last().content_hash;
    match keeper_of(init, hash) {
        Some(k) => {
            let more = ReplacementModel { id: list.last().id, keeper: list[k].id };
            assert(replacements(init).push(more).drop_last() =~= replacements(init));
            if list.last().id == id {
                let p = |m: MemoryModel| m.content_hash == hash;
                first_match_facts(init, p);
                first_match_facts(init.take(k), p);
                assert(init[k] == list[k]);
                assert(list.take(k) =~= init.take(k));
                assert(keeper_of(list.take(k), list[k].content_hash) is None) by {
                    match first_match(init.take(k), p) {
                        Some(j) => {
                            assert(init.take(k)[j] == init[j]);
                            assert(!p(init[j]));
                        },
                        None => {},
                    }
                }
                (k, list.len() - 1)
            } else {
                let r = replacement_source(init, id);
                assert(init.take(r.0) =~= list.take(r.0));
                r
            }
        },
        None => {
            let r = replacement_source(init, id);
            assert(init.take(r.0) =~= list.take(r.0));
            r
        },
    }
}

proof fn in_use_facts(rows: Seq<MemoryModel>, namespace: Seq<char>, workspace_id: Seq<char>)
    requires
        distinct_ids(rows),
        rows.len() <= usize::MAX,
    ensures
        ({
            let list = by_salience(rows_in_use(rows, namespace, workspace_id));
            &&& forall|m: MemoryModel| #[trigger]
                list.contains(m) <==> rows.contains(m) && m.in_use(namespace, workspace_id)
        }),
{
    let p = |m: MemoryModel| m.in_use(namespace, workspace_id);
    let used = rows_in_use(rows, namespace, workspace_id);
    rows.lemma_filter_len(p);
    arranged_facts(used, salience_places(used), |m: MemoryModel| salience(m));
    let list = by_salience(used);
    assert forall|m: MemoryModel| #[trigger] list.contains(m) <==> rows.contains(m) && m.in_use(
        namespace,
        workspace_id,
    ) by {
        filter_values(rows, p, m);
        assert(list.contains(m) <==> used.contains(m));
    }
}

/// After a consolidation no content is in use twice in the workspace.
pub proof fn consolidation_leaves_one(
    rows: Seq<MemoryModel>,
    namespace: Seq<char>,
    workspace_id: Seq<char>,
    now: i64,
)
    requires
        distinct_ids(rows),
        rows.len() <= usize::MAX,
    ensures
        ({
            let after = retired_rows(rows, needed(rows, namespace, workspace_id), now);
            &&& distinct_ids(after)
            &&& forall|i: int, j: int|
                0 <= i < after.len() && 0 <= j < after.len() && i != j && (
                #[trigger] after[i]).in_use(namespace, workspace_id) && (
                #[trigger] after[j]).in_use(namespace, workspace_id) ==> after[i].content_hash
                    != after[j].content_hash
        }),
{
    let plan = needed(rows, namespace, workspace_id);
    let after = retired_rows(rows, plan, now);
    let list = by_salience(rows_in_use(rows, namespace, workspace_id));
    in_use_facts(rows, namespace, workspace_id);
    assert forall|i: int, j: int|
        0 <= i < after.len() && 0 <= j < after.len() && i != j implies #[trigger] after[i].id
        != #[trigger] after[j].id by {
        assert(after[i].id == rows[i].id && after[j].id == rows[j].id);
    }
    assert forall|i: int, j: int|
        0 <= i < after.len() && 0 <= j < after.len() && i != j && (#[trigger] after[i]).in_use(
            namespace,
            workspace_id,
        ) && (#[trigger] after[j]).in_use(namespace, workspace_id) implies after[i].content_hash
        != after[j].content_hash by {
        assert(after[i] == retired(rows[i], plan, now) && after[j] == retired(rows[j], plan, now));
        assert(after[i] == rows[i] && after[j] == rows[j]);
        assert(rows[i].id != rows[j].id);
        assert(rows.contains(rows[i]) && rows.contains(rows[j]));
        assert(list.contains(rows[i]) && list.contains(rows[j]));
        let a = choose|a: int| 0 <= a < list.len() && list[a] == rows[i];
        let b = choose|b: int| 0 <= b < list.len() && list[b] == rows[j];
        if after[i].content_hash == after[j].content_hash {
            let (lo, hi) = if a < b { (a, b) } else { (b, a) };
            let p = |m: MemoryModel| m.content_hash == list[hi].content_hash;
            first_match_facts(list.take(hi), p);
            assert(list.take(hi)[lo] == list[lo]);
            assert(p(list.take(hi)[lo]));
            replacement_listed(list, hi);
            assert(kept_instead(plan, list[hi].id) is Some);
        }
    }
}

/// A consolidation only takes memories out of use that have the content of another one, which
/// stays as it is: in use, and named as the one that is kept.
pub proof fn consolidation_keeps_a_copy(
    rows: Seq<MemoryModel>,
    namespace: Seq<char>,
    workspace_id: Seq<char>,
    now: i64,
    i: int,
)
    requires
        distinct_ids(rows),
        rows.len() <= usize::MAX,
        0 <= i < rows.len(),
    ensures
        ({
            let after = retired_rows(rows, needed(rows, namespace, workspace_id), now);
            &&& after.len() == rows.len()
            &&& after[i] == rows[i] || exists|k: int|
                {
                    &&& 0 <= k < rows.len()
                    &&& #[trigger] after[k] == rows[k]
                    &&& rows[k].in_use(namespace, workspace_id)
                    &&& rows[i].in_use(namespace, workspace_id)
                    &&& rows[k].content_hash == rows[i].content_hash
                    &&& after[i] == rows[i].with_status(
                        MemoryStatus::Superseded,
                        Some(rows[k].id),
                        now,
                    )
                }
        }),
{
    let plan = needed(rows, namespace, workspace_id);
    let after = retired_rows(rows, plan, now);
    let list = by_salience(rows_in_use(rows, namespace, workspace_id));
    in_use_facts(rows, namespace, workspace_id);
    assert(after[i] == retired(rows[i], plan, now));
    if after[i] != rows[i] {
        let (a, b) = replacement_source(list, rows[i].id);
        assert(list.contains(list[a]) && list.contains(list[b]));
        let k = choose|k: int| 0 <= k < rows.len() && rows[k] == list[a];
        let n = choose|n: int| 0 <= n < rows.len() && rows[n] == list[b];
        assert(n == i) by {
            if n != i {
                assert(rows[n].id != rows[i].id);
            }
        }
        assert(after[k] == retired(rows[k], plan, now));
        if kept_instead(plan, rows[k].id) is Some {
            let (c, d) = replacement_source(list, rows[k].id);
            assert(list.contains(list[d]));
            let m = choose|m: int| 0 <= m < rows.len() && rows[m] == list[d];
            assert(m == k) by {
                if m != k {
                    assert(rows[m].id != rows[k].id);
                }
            }
            unique_place(rows, namespace, workspace_id, a, d);
            let p = |m: MemoryModel| m.content_hash == list[a].content_hash;
            first_match_facts(list.take(a), p);
            assert(list.take(a)[c] == list[c]);
            assert(p(list.take(a)[c]));
        }
        assert(after[k] == rows[k]);
    }
}

/// The list of the memories in use holds each once.
proof fn unique_place(
    rows: Seq<MemoryModel>,
    namespace: Seq<char>,
    workspace_id: Seq<char>,
    a: int,
    b: int,
)
    requires
        distinct_ids(rows),
        rows.len() <= usize::MAX,
        0 <= a < rows_in_use(rows, namespace, workspace_id).len(),
        0 <= b < rows_in_use(rows, namespace, workspace_id).len(),
        by_salience(rows_in_use(rows, namespace, workspace_id))[a] == by_salience(
            rows_in_use(rows, namespace, workspace_id),
        )[b],
    ensures
        a == b,
{
    let p = |m: MemoryModel| m.in_use(namespace, workspace_id);
    let used = rows_in_use(rows, namespace, workspace_id);
    rows.lemma_filter_len(p);
    filter_distinct(rows, p);
    let all = salience_places(used);
    stable_order_exists(all);
    let order = stable_positions(all);
    if a != b {
        let (lo, hi) = if a < b { (a, b) } else { (b, a) };
        assert(comes_before(all, order[lo] as int, order[hi] as int));
        place_order(all[order[lo] as int], all[order[hi] as int], all[order[lo] as int]);
        assert(order[lo] != order[hi]);
        assert(used[order[lo] as int].id != used[order[hi] as int].id);
    }
}

/// Of the memories with one content, a consolidation keeps the most salient one: none that was in
/// use with the content of a memory that stays in use is more salient than that memory.
pub proof fn consolidation_keeps_the_most_salient(
    rows: Seq<MemoryModel>,
    namespace: Seq<char>,
    workspace_id: Seq<char>,
    now: i64,
    k: int,
    i: int,
)
    requires
        distinct_ids(rows),
        rows.len() <= usize::MAX,
        0 <= k < rows.len(),
        0 <= i < rows.len(),
        retired_rows(rows, needed(rows, namespace, workspace_id), now)[k].in_use(
            namespace,
            workspace_id,
        ),
        rows[i].in_use(namespace, workspace_id),
        rows[i].content_hash == rows[k].content_hash,
    ensures
        retired_rows(rows, needed(rows, namespace, workspace_id), now)[k] == rows[k],
        !salience(rows[i]).less(salience(rows[k])),
{
    let plan = needed(rows, namespace, workspace_id);
    let after = retired_rows(rows, plan, now);
    let used = rows_in_use(rows, namespace, workspace_id);
    let list = by_salience(used);
    in_use_facts(rows, namespace, workspace_id);
    rows.lemma_filter_len(|m: MemoryModel| m.in_use(namespace, workspace_id));
    arranged_facts(used, salience_places(used), |m: MemoryModel| salience(m));
    assert(after[k] == retired(rows[k], plan, now));
    assert(rows.contains(rows[k]) && rows.contains(rows[i]));
    assert(list.contains(rows[k]) && list.contains(rows[i]));
    let a = choose|a: int| 0 <= a < list.len() && list[a] == rows[k];
    let b = choose|b: int| 0 <= b < list.len() && list[b] == rows[i];
    if b < a {
        let p = |m: MemoryModel| m.content_hash == list[a].content_hash;
        first_match_facts(list.take(a), p);
        assert(list.take(a)[b] == list[b]);
        assert(p(list.take(a)[b]));
        replacement_listed(list, a);
        assert(false);
    }
    let place = |m: MemoryModel| salience(m);
    if a < b {
        assert(!place(list[b]).less(place(list[a])));
    } else {
        place_order(salience(rows[i]), salience(rows[k]), salience(rows[i]));
    }
}

/// The identifiers of what is replaced.
spec fn replaced_ids(list: Seq<ReplacementModel>) -> Seq<Seq<char>> {
    list.map_values(|r: ReplacementModel| r.id)
}

proof fn replaced_are_listed(list: Seq<ReplacementModel>, id: Seq<char>)
    ensures
        kept_instead(list, id) is Some <==> replaced_ids(list).contains(id),
    decreases list.len(),
{
    let ids = replaced_ids(list);
    if list.len() > 0 {
        let init = list.drop_last();
        replaced_are_listed(init, id);
        assert(ids[list.len() - 1] == list.last().id);
        if replaced_ids(init).contains(id) {
            let k = choose|k: int| 0 <= k < init.len() && replaced_ids(init)[k] == id;
            assert(ids[k] == id);
        }
        if ids.contains(id) && list.last().id != id {
            let k = choose|k: int| 0 <= k < list.len() && ids[k] == id;
            assert(replaced_ids(init)[k] == id);
        }
    }
}

proof fn replaced_once(list: Seq<MemoryModel>)
    requires
        distinct_ids(list),
    ensures
        replaced_ids(replacements(list)).no_duplicates(),
    decreases list.len(),
{
    if list.len() > 0 {
        let init = list.drop_last();
        assert forall|i: int, j: int|
            0 <= i < init.len() && 0 <= j < init.len() && i != j implies #[trigger] init[i].id
            != #[trigger] init[j].id by {
            assert(list[i].id != list[j].id);
        }
        replaced_once(init);
        let before = replacements(init);
        if keeper_of(init, list.last().content_hash) is Some {
            let id = list.last().id;
            assert(replaced_ids(replacements(list)) =~= replaced_ids(before).push(id));
            if replaced_ids(before).contains(id) {
                replaced_are_listed(before, id);
                let (a, b) = replacement_source(init, id);
                assert(init[b] == list[b]);
                assert(list[b].id != list[list.len() - 1].id);
            }
        }
    }
}

/// The number that a consolidation reports is that of the memories that it takes out of use.
pub proof fn consolidation_counts_what_it_retires(
    rows: Seq<MemoryModel>,
    namespace: Seq<char>,
    workspace_id: Seq<char>,
    now: i64,
)
    requires
        distinct_ids(rows),
        rows.len() <= usize::MAX,
    ensures
        ({
            let plan = needed(rows, namespace, workspace_id);
            plan.len() == rows.filter(
                |m: MemoryModel|
                    m.in_use(namespace, workspace_id) && !retired(m, plan, now).in_use(
                        namespace,
                        workspace_id,
                    ),
            ).len()
        }),
{
    let plan = needed(rows, namespace, workspace_id);
    let list = by_salience(rows_in_use(rows, namespace, workspace_id));
    let p = |m: MemoryModel|
        m.in_use(namespace, workspace_id) && !retired(m, plan, now).in_use(namespace, workspace_id);
    let taken = rows.filter(p);
    let ids = taken.map_values(|m: MemoryModel| m.id);
    let listed = replaced_ids(plan);
    in_use_facts(rows, namespace, workspace_id);
    rows.lemma_filter_len(|m: MemoryModel| m.in_use(namespace, workspace_id));
    assert(distinct_ids(list)) by {
        assert forall|a: int, b: int|
            0 <= a < list.len() && 0 <= b < list.len() && a != b implies #[trigger] list[a].id
            != #[trigger] list[b].id by {
            assert(list.contains(list[a]) && list.contains(list[b]));
            let i = choose|i: int| 0 <= i < rows.len() && rows[i] == list[a];
            let j = choose|j: int| 0 <= j < rows.len() && rows[j] == list[b];
            if i == j {
                unique_place(rows, namespace, workspace_id, a, b);
            } else {
                assert(rows[i].id != rows[j].id);
            }
        }
    }
    replaced_once(list);
    filter_distinct(rows, p);
    assert(ids.no_duplicates()) by {
        assert forall|i: int, j: int| 0 <= i < ids.len() && 0 <= j < ids.len() && i != j implies
            ids[i] != ids[j] by {
            assert(taken[i].id != taken[j].id);
        }
    }
    assert forall|id: Seq<char>| ids.contains(id) <==> listed.contains(id) by {
        replaced_are_listed(plan, id);
        if ids.contains(id) {
            let k = choose|k: int| 0 <= k < ids.len() && ids[k] == id;
            rows.lemma_filter_pred(p, k);
        }
        if listed.contains(id) {
            let (a, b) = replacement_source(list, id);
            assert(list.contains(list[b]));
            filter_values(rows, p, list[b]);
            assert(taken.contains(list[b]));
            let k = choose|k: int| 0 <= k < taken.len() && taken[k] == list[b];
            assert(ids[k] == id);
        }
    }
    assert(ids.to_set() =~= listed.to_set());
    ids.unique_seq_to_set();
    listed.unique_seq_to_set();
}

/// A consolidation leaves nothing to consolidate, and lowers no sensitivity.
pub proof fn consolidation_is_final(
    rows: Seq<MemoryModel>,
    namespace: Seq<char>,
    workspace_id: Seq<char>,
    now: i64,
)
    requires
        distinct_ids(rows),
        rows.len() <= usize::MAX,
    ensures
        ({
            let after = retired_rows(rows, needed(rows, namespace, workspace_id), now);
            &&& needed(after, namespace, workspace_id).len() == 0
            &&& grows_into(rows, after)
        }),
{
    let after = retired_rows(rows, needed(rows, namespace, workspace_id), now);
    consolidation_leaves_one(rows, namespace, workspace_id, now);
    in_use_facts(after, namespace, workspace_id);
    let list = by_salience(rows_in_use(after, namespace, workspace_id));
    let more = needed(after, namespace, workspace_id);
    if more.len() > 0 {
        let (a, b) = replacement_source(list, more.last().id);
        assert(list.contains(list[a]) && list.contains(list[b]));
        let i = choose|i: int| 0 <= i < after.len() && after[i] == list[a];
        let j = choose|j: int| 0 <= j < after.len() && after[j] == list[b];
        if i == j {
            unique_place(after, namespace, workspace_id, a, b);
        }
        assert(after[i].content_hash != after[j].content_hash);
    }
}

/// Where no content is in use twice, there is nothing to consolidate.
pub proof fn unique_slots_need_no_consolidation(
    rows: Seq<MemoryModel>,
    namespace: Seq<char>,
    workspace_id: Seq<char>,
)
    requires
        distinct_ids(rows),
        slots_unique(rows),
        rows.len() <= usize::MAX,
    ensures
        needed(rows, namespace, workspace_id).len() == 0,
{
    in_use_facts(rows, namespace, workspace_id);
    let list = by_salience(rows_in_use(rows, namespace, workspace_id));
    let plan = needed(rows, namespace, workspace_id);
    if plan.len() > 0 {
        let (a, b) = replacement_source(list, plan.last().id);
        assert(list.contains(list[a]) && list.contains(list[b]));
        let i = choose|i: int| 0 <= i < rows.len() && rows[i] == list[a];
        let j = choose|j: int| 0 <= j < rows.len() && rows[j] == list[b];
        if i == j {
            unique_place(rows, namespace, workspace_id, a, b);
        }
        assert(!rows[i].shares_slot(rows[j]));
    }
}

/// Of two memories in use with one content in the workspace, the one that stays in use after a
/// consolidation is pinned if the other is; pinned alike, it is no less important; as important, it
/// was changed no earlier.
pub proof fn consolidation_prefers_pinned_important_recent(
    rows: Seq<MemoryModel>,
    namespace: Seq<char>,
    workspace_id: Seq<char>,
    now: i64,
    k: int,
    i: int,
)
    requires
        distinct_ids(rows),
        rows.len() <= usize::MAX,
        0 <= k < rows.len(),
        0 <= i < rows.len(),
        retired_rows(rows, needed(rows, namespace, workspace_id), now)[k].status
            == MemoryStatus::Active,
        rows[k].namespace == namespace,
        rows[k].workspace_id == workspace_id,
        rows[i].status == MemoryStatus::Active,
        rows[i].namespace == namespace,
        rows[i].workspace_id == workspace_id,
        rows[i].content_hash == rows[k].content_hash,
    ensures
        rows[i].pinned ==> rows[k].pinned,
        rows[i].pinned == rows[k].pinned ==> rows[i].importance.order()
            <= rows[k].importance.order(),
        rows[i].pinned == rows[k].pinned && rows[i].importance.order()
            == rows[k].importance.order() ==> rows[i].updated_at <= rows[k].updated_at,
{
    consolidation_keeps_the_most_salient(rows, namespace, workspace_id, now, k, i);
}

/// A consolidation changes nothing but copies: a memory of another workspace, one that is not in
/// use, and one whose content no other memory in use of the workspace has, stay as they are.
pub proof fn consolidation_changes_only_copies(
    rows: Seq<MemoryModel>,
    namespace: Seq<char>,
    workspace_id: Seq<char>,
    now: i64,
    i: int,
)
    requires
        distinct_ids(rows),
        rows.len() <= usize::MAX,
        0 <= i < rows.len(),
        rows[i].status != MemoryStatus::Active || rows[i].namespace != namespace
            || rows[i].workspace_id != workspace_id || forall|k: int|
            0 <= k < rows.len() && k != i && (#[trigger] rows[k]).status == MemoryStatus::Active
                && rows[k].namespace == namespace && rows[k].workspace_id == workspace_id
                ==> rows[k].content_hash != rows[i].content_hash,
    ensures
        retired_rows(rows, needed(rows, namespace, workspace_id), now)[i] == rows[i],
{
    let after = retired_rows(rows, needed(rows, namespace, workspace_id), now);
    consolidation_keeps_a_copy(rows, namespace, workspace_id, now, i);
    if after[i] != rows[i] {
        let k = choose|k: int|
            {
                &&& 0 <= k < rows.len()
                &&& #[trigger] after[k] == rows[k]
                &&& rows[k].in_use(namespace, workspace_id)
                &&& rows[i].in_use(namespace, workspace_id)
                &&& rows[k].content_hash == rows[i].content_hash
                &&& after[i] == rows[i].with_status(
                    MemoryStatus::Superseded,
                    Some(rows[k].id),
                    now,
                )
            };
        assert(k != i);
        assert(rows[k].status == MemoryStatus::Active);
    }
}

/// A copy that is taken out of use is superseded by a memory of the same content that stays in use,
/// closed at the time, and otherwise unchanged.
pub proof fn consolidation_supersedes_copies(
    rows: Seq<MemoryModel>,
    namespace: Seq<char>,
    workspace_id: Seq<char>,
    now: i64,
    i: int,
)
    requires
        distinct_ids(rows),
        rows.len() <= usize::MAX,
        0 <= i < rows.len(),
        retired_rows(rows, needed(rows, namespace, workspace_id), now)[i] != rows[i],
    ensures
        ({
            let after = retired_rows(rows, needed(rows, namespace, workspace_id), now);
            exists|k: int|
                {
                    &&& 0 <= k < rows.len()
                    &&& (#[trigger] after[k]).status == MemoryStatus::Active
                    &&& after[k].namespace == namespace
                    &&& after[k].workspace_id == workspace_id
                    &&& after[k].content_hash == rows[i].content_hash
                    &&& after[i].supersedes_id == Some(after[k].id)
                    &&& after[i].status == MemoryStatus::Superseded
                    &&& after[i].updated_at == now
                    &&& after[i].valid_until == (if rows[i].valid_until is Some {
                        rows[i].valid_until
                    } else {
                        Some(now)
                    })
                    &&& rows[i] == (MemoryModel {
                        status: rows[i].status,
                        supersedes_id: rows[i].supersedes_id,
                        updated_at: rows[i].updated_at,
                        valid_until: rows[i].valid_until,
                        ..after[i]
                    })
                }
        }),
{
    let after = retired_rows(rows, needed(rows, namespace, workspace_id), now);
    consolidation_keeps_a_copy(rows, namespace, workspace_id, now, i);
    let k = choose|k: int|
        {
            &&& 0 <= k < rows.len()
            &&& #[trigger] after[k] == rows[k]
            &&& rows[k].in_use(namespace, workspace_id)
            &&& rows[i].in_use(namespace, workspace_id)
            &&& rows[k].content_hash == rows[i].content_hash
            &&& after[i] == rows[i].with_status(MemoryStatus::Superseded, Some(rows[k].id), now)
        };
    assert(after[k].status == MemoryStatus::Active);
}

/// After a consolidation no two memories in use of the workspace have one content.
pub proof fn consolidation_leaves_no_copies(
    rows: Seq<MemoryModel>,
    namespace: Seq<char>,
    workspace_id: Seq<char>,
    now: i64,
    i: int,
    j: int,
)
    requires
        distinct_ids(rows),
        rows.len() <= usize::MAX,
        0 <= i < rows.len(),
        0 <= j < rows.len(),
        i != j,
        rows[i].namespace == namespace,
        rows[j].namespace == namespace,
        rows[i].workspace_id == workspace_id,
        rows[j].workspace_id == workspace_id,
        rows[i].content_hash == rows[j].content_hash,
    ensures
        ({
            let after = retired_rows(rows, needed(rows, namespace, workspace_id), now);
            after[i].status != MemoryStatus::Active || after[j].status != MemoryStatus::Active
        }),
{
    let after = retired_rows(rows, needed(rows, namespace, workspace_id), now);
    consolidation_leaves_one(rows, namespace, workspace_id, now);
    assert(after[i].content_hash == rows[i].content_hash);
    assert(after[j].content_hash == rows[j].content_hash);
    if after[i].status == MemoryStatus::Active && after[j].status == MemoryStatus::Active {
        assert(after[i].in_use(namespace, workspace_id));
        assert(after[j].in_use(namespace, workspace_id));
    }
}

} // verus!
