use vstd::prelude::*;

use crate::arith::{
    counts_grow, doubled, more_units_are_larger, of_count, powers_from, product, product_grows,
    product_in_units, quotient, quotient_falls, quotient_of_equals, sum, sum_grows, sum_is_kept,
    sums_in_units, weight_units, INFINITE_BITS,
};
use crate::consolidate::{by_salience, salience, salience_places, sort_by_salience};
use crate::clock::signed;
use crate::error::Result;
use crate::kinds::{MemoryScope, MemoryStatus, Sensitivity};
use crate::memory::{models, MemoryModel, MemoryRecord, NewMemory, RecallQuery};
use crate::order::{
    arranged, arranged_facts, descending, filter_keeps_apart, filter_values, has_stable_order,
    keyed_apart, lists_values, place_order, placed_lists_agree, places, sorted_distinct,
    sorted_values, sorted_values_exist, stable_order, stable_positions, strictly_ascending, text_less,
    Place, SortKey,
};
use crate::ranking::{
    assess_merge_candidate, assesses, lexical_similarity, retention_score, similarity,
    sums_grow, MergeCandidate, MergeDisposition, SemanticReranker, SemanticScore, UsedMemory,
    FULL_RETENTION,
};
use crate::sensitivity::{may_read, readable};
use crate::single::{Single, ONE_BITS};
use crate::text::{
    chars_of, is_stretch, join_texts, joined, runs, same_text, split_runs, stretches_are_runs, texts,
    trim_text, trimmed, trimming_keeps_inner_text, white_space, CharClass,
};

verus! {

/// The number brought into a range.
pub open spec fn within(n: int, low: int, high: int) -> int {
    if n < low {
        low
    } else if n > high {
        high
    } else {
        n
    }
}

pub(crate) fn clamp(n: usize, low: usize, high: usize) -> (r: usize)
    requires
        low <= high,
    ensures
        r == within(n as int, low as int, high as int),
{
    if n < low {
        low
    } else if n > high {
        high
    } else {
        n
    }
}

/// How many memories a recall returns at most.
pub fn recall_limit(limit: usize) -> (r: usize)
    ensures
        r == within(limit as int, 1, 50),
{
    clamp(limit, 1, 50)
}

/// How many candidates a recall looks at.
pub fn recall_cap(limit: usize) -> (r: usize)
    ensures
        r == within(12 * within(limit as int, 1, 50), 64, 256),
{
    clamp(recall_limit(limit) * 12, 64, 256)
}

/// How many merge candidates are returned at most.
pub fn merge_limit(limit: usize) -> (r: usize)
    ensures
        r == within(limit as int, 1, 32),
{
    clamp(limit, 1, 32)
}

/// How many memories a search for merge candidates looks at.
pub fn merge_cap(limit: usize) -> (r: usize)
    ensures
        r == within(8 * within(limit as int, 1, 32), 32, 128),
{
    clamp(merge_limit(limit) * 8, 32, 128)
}

/// How many corrections or concepts a search returns at most.
pub fn search_limit(limit: usize) -> (r: usize)
    ensures
        r == within(limit as int, 1, 50),
{
    clamp(limit, 1, 50)
}

/// How many terms a full-text query uses.
pub const MAX_TERMS: usize = 16;

/// The terms of a text that a full-text query looks for: two characters or longer, the first
/// ones only.
pub open spec fn search_terms(s: Seq<char>) -> Seq<Seq<char>> {
    first_terms(usable_terms(runs(s, CharClass::Term)))
}

/// The trimmed pieces that are long enough.
pub open spec fn usable_terms(pieces: Seq<Seq<char>>) -> Seq<Seq<char>> {
    pieces.map_values(|p: Seq<char>| trimmed(p)).filter(|p: Seq<char>| p.len() >= 2)
}

/// The leading terms.
pub open spec fn first_terms(terms: Seq<Seq<char>>) -> Seq<Seq<char>> {
    if terms.len() > MAX_TERMS {
        terms.take(MAX_TERMS as int)
    } else {
        terms
    }
}

/// The text without double quotes.
pub open spec fn unquoted(s: Seq<char>) -> Seq<char> {
    s.filter(|c: char| c != '"')
}

/// The text between double quotes.
pub open spec fn quoted(s: Seq<char>) -> Seq<char> {
    seq!['"'] + unquoted(s) + seq!['"']
}

/// The quoted terms, as they occur.
pub open spec fn quoted_terms(s: Seq<char>) -> Seq<Seq<char>> {
    search_terms(s).map_values(|t: Seq<char>| quoted(t))
}

fn quote(term: &str) -> (r: String)
    ensures
        r@ == quoted(term@),
{
    let mut out = String::new();
    out.push('"');
    let chars = chars_of(term);
    let mut i: usize = 0;
    reveal(Seq::filter);
    assert(out@ =~= seq!['"'] + unquoted(chars@.take(0)));
    while i < chars.len()
        invariant
            i <= chars@.len(),
            out@ == seq!['"'] + unquoted(chars@.take(i as int)),
        decreases chars@.len() - i,
    {
        proof {
            reveal(Seq::filter);
            assert(chars@.take(i + 1).drop_last() =~= chars@.take(i as int));
        }
        if chars[i] != '"' {
            out.push(chars[i]);
            assert(out@ =~= seq!['"'] + unquoted(chars@.take(i + 1)));
        }
        i += 1;
    }
    assert(chars@.take(chars@.len() as int) =~= chars@);
    let ghost before = out@;
    out.push('"');
    assert(out@ =~= before + seq!['"']);
    out
}

/// The full-text query for a text: its terms, quoted, in ascending order, any of which may match.
pub open spec fn match_expression(s: Seq<char>) -> Seq<char> {
    joined(sorted_values(quoted_terms(s)), " OR "@)
}

/// The full-text query for a text; empty where the text has no usable term.
pub fn fts_query(input: &str) -> (r: String)
    ensures
        r@ == match_expression(input@),
        lists_values(sorted_values(quoted_terms(input@)), quoted_terms(input@)),
        r@.len() == 0 <==> search_terms(input@).len() == 0,
{
    let pieces = split_runs(input, CharClass::Term);
    let ghost all = texts(pieces@);
    let mut terms: Vec<String> = Vec::new();
    let mut i: usize = 0;
    reveal(Seq::filter);
    let ghost mut plain: Seq<Seq<char>> = Seq::empty();
    assert(usable_terms(all.take(0)) =~= plain);
    while i < pieces.len() && terms.len() < MAX_TERMS
        invariant
            i <= pieces@.len(),
            all == texts(pieces@),
            plain == usable_terms(all.take(i as int)),
            plain.len() == terms@.len() <= MAX_TERMS,
            forall|k: int| 0 <= k < plain.len() ==> #[trigger] texts(terms@)[k] == quoted(plain[k]),
        decreases pieces@.len() - i,
    {
        let term = trim_text(pieces[i].as_str());
        proof {
            reveal(Seq::filter);
            let f = |p: Seq<char>| trimmed(p);
            assert(all.take(i + 1).map_values(f).drop_last() =~= all.take(i as int).map_values(f));
            assert(all.take(i + 1).map_values(f).last() == term@);
        }
        if term.as_str().unicode_len() >= 2 {
            let ghost before = texts(terms@);
            terms.push(quote(term.as_str()));
            proof {
                plain = plain.push(term@);
                assert(texts(terms@) =~= before.push(quoted(term@)));
            }
        }
        i += 1;
    }
    proof {
        if i == pieces@.len() {
            assert(all.take(all.len() as int) =~= all);
            assert(search_terms(input@) =~= plain);
        } else {
            usable_terms_grow(all, i as int);
            assert(search_terms(input@) =~= plain);
        }
        assert(quoted_terms(input@) =~= texts(terms@));
    }
    let sorted = sorted_distinct(&terms);
    let query = join_texts(&sorted, " OR ");
    proof {
        let given = quoted_terms(input@);
        let listed = texts(sorted@);
        if given.len() == 0 {
            if listed.len() > 0 {
                assert(listed.contains(listed[0]));
                assert(given.contains(listed[0]));
            }
        } else {
            assert(given.contains(given[0]));
            assert(listed.contains(given[0]));
            assert(given.contains(listed[listed.len() - 1])) by {
                assert(listed.contains(listed[listed.len() - 1]));
            }
            let k = choose|k: int| 0 <= k < given.len() && given[k] == listed[listed.len() - 1];
            assert(given[k] == quoted(search_terms(input@)[k]));
            assert(listed.last().len() >= 2);
        }
    }
    query
}

/// Looking at more pieces only appends usable terms.
proof fn usable_terms_grow(all: Seq<Seq<char>>, n: int)
    requires
        0 <= n <= all.len(),
    ensures
        usable_terms(all).len() >= usable_terms(all.take(n)).len(),
        usable_terms(all).take(usable_terms(all.take(n)).len() as int) == usable_terms(all.take(n)),
    decreases all.len(),
{
    reveal(Seq::filter);
    let f = |p: Seq<char>| trimmed(p);
    if n == all.len() {
        assert(all.take(n) =~= all);
        assert(usable_terms(all).take(usable_terms(all).len() as int) =~= usable_terms(all));
    } else {
        let init = all.drop_last();
        usable_terms_grow(init, n);
        assert(init.take(n) =~= all.take(n));
        assert(all.map_values(f).drop_last() =~= init.map_values(f));
        let m = usable_terms(all.take(n)).len() as int;
        assert(usable_terms(all).take(m) =~= usable_terms(init).take(m));
    }
}

/// No quote inside a term can end it early: between its outer quotes a quoted term holds none.
pub proof fn quoting_is_safe(s: Seq<char>)
    ensures
        quoted(s).len() >= 2,
        quoted(s)[0] == '"',
        quoted(s).last() == '"',
        forall|i: int| 0 < i < quoted(s).len() - 1 ==> quoted(s)[i] != '"',
    decreases s.len(),
{
    broadcast use vstd::seq_lib::group_filter_ensures;

    let p = |c: char| c != '"';
    assert forall|i: int| 0 < i < quoted(s).len() - 1 implies quoted(s)[i] != '"' by {
        assert(quoted(s)[i] == unquoted(s)[i - 1]);
        s.lemma_filter_pred(p, i - 1);
    }
}

impl RecallQuery {
    /// Whether the memory may be returned to this query at `now`.
    pub open spec fn admits(&self, m: MemoryModel, now: i64) -> bool {
        m.live(self.namespace@, self.workspace_id@, now) && readable(
            m.sensitivity,
            self.allow_private,
            self.allow_secret,
        )
    }
}

/// Whether a query may see memories of the level.
pub fn sensitivity_allowed(
    sensitivity: Sensitivity,
    query: &RecallQuery,
) -> (r: bool)
    ensures
        r == readable(sensitivity, query.allow_private, query.allow_secret),
{
    may_read(sensitivity, query.allow_private, query.allow_secret)
}

/// Whether a memory with the identifier is listed.
pub open spec fn lists_id(rows: Seq<MemoryModel>, id: Seq<char>) -> bool {
    exists|i: int| 0 <= i < rows.len() && #[trigger] rows[i].id == id
}

fn has_id(rows: &Vec<MemoryRecord>, id: &str) -> (r: bool)
    ensures
        r == lists_id(models(rows@), id@),
{
    let mut i: usize = 0;
    while i < rows.len()
        invariant
            i <= rows@.len(),
            forall|j: int| 0 <= j < i ==> #[trigger] models(rows@)[j].id != id@,
        decreases rows@.len() - i,
    {
        if same_text(rows[i].id.as_str(), id) {
            assert(models(rows@)[i as int].id == id@);
            return true;
        }
        i += 1;
    }
    false
}

/// The rows that a read of the workspace may return, sensitivity aside.
pub open spec fn live_rows(
    rows: Seq<MemoryModel>,
    namespace: Seq<char>,
    workspace_id: Seq<char>,
    now: i64,
) -> Seq<MemoryModel> {
    rows.filter(|m: MemoryModel| m.live(namespace, workspace_id, now))
}

/// The rows that the query's permissions admit.
pub open spec fn readable_rows(
    rows: Seq<MemoryModel>,
    allow_private: bool,
    allow_secret: bool,
) -> Seq<MemoryModel> {
    rows.filter(|m: MemoryModel| readable(m.sensitivity, allow_private, allow_secret))
}

/// `rows`, filled up to `cap` with the memories of `more` that are not listed yet.
pub open spec fn filled_up(
    rows: Seq<MemoryModel>,
    more: Seq<MemoryModel>,
    cap: nat,
) -> Seq<MemoryModel>
    decreases more.len(),
{
    if more.len() == 0 || rows.len() >= cap {
        rows
    } else if lists_id(rows, more[0].id) {
        filled_up(rows, more.skip(1), cap)
    } else {
        filled_up(rows.push(more[0]), more.skip(1), cap)
    }
}

/// The candidates of a recall: what matched, filled up with the most salient memories, as far as
/// the query may see them.
pub open spec fn candidates(
    matches: Seq<MemoryModel>,
    salient: Seq<MemoryModel>,
    query: &RecallQuery,
    now: i64,
    cap: nat,
) -> Seq<MemoryModel> {
    readable_rows(
        filled_up(
            live_rows(matches, query.namespace@, query.workspace_id@, now),
            live_rows(salient, query.namespace@, query.workspace_id@, now),
            cap,
        ),
        query.allow_private,
        query.allow_secret,
    )
}

fn keep_live(
    rows: &Vec<MemoryRecord>,
    namespace: &str,
    workspace_id: &str,
    now: i64,
) -> (r: Vec<MemoryRecord>)
    ensures
        models(r@) == live_rows(models(rows@), namespace@, workspace_id@, now),
{
    let ghost all = models(rows@);
    let mut out: Vec<MemoryRecord> = Vec::new();
    let mut i: usize = 0;
    reveal(Seq::filter);
    assert(models(out@) =~= live_rows(all.take(0), namespace@, workspace_id@, now));
    while i < rows.len()
        invariant
            i <= rows@.len(),
            all == models(rows@),
            models(out@) == live_rows(
                all.take(i as int),
                namespace@,
                workspace_id@,
                now,
            ),
        decreases rows@.len() - i,
    {
        proof {
            reveal(Seq::filter);
            assert(all.take(i + 1).drop_last() =~= all.take(i as int));
        }
        if rows[i].is_live(namespace, workspace_id, now) {
            let ghost before = models(out@);
            out.push(rows[i].clone());
            assert(models(out@) =~= before.push(all[i as int]));
        }
        i += 1;
    }
    assert(all.take(all.len() as int) =~= all);
    out
}

/// The live memories of a workspace, the most salient first, no more than `cap`.
pub open spec fn salient(
    rows: Seq<MemoryModel>,
    namespace: Seq<char>,
    workspace_id: Seq<char>,
    now: i64,
    cap: int,
) -> Seq<MemoryModel> {
    top(by_salience(live_rows(rows, namespace, workspace_id, now)), cap)
}

/// Picks the live memories of a workspace, the most salient first, no more than `cap`.
pub fn salient_rows(
    rows: &Vec<MemoryRecord>,
    namespace: &str,
    workspace_id: &str,
    now: i64,
    cap: usize,
) -> (r: Vec<MemoryRecord>)
    ensures
        models(r@) == salient(models(rows@), namespace@, workspace_id@, now, cap as int),
        has_stable_order(
            salience_places(live_rows(models(rows@), namespace@, workspace_id@, now)),
        ),
{
    let live = keep_live(rows, namespace, workspace_id, now);
    let mut sorted = sort_by_salience(&live);
    let ghost all = models(sorted@);
    if sorted.len() > cap {
        sorted.truncate(cap);
        assert(models(sorted@) =~= all.take(cap as int));
    }
    sorted
}

/// Gathers the candidates of a recall from the rows that matched its text and the most salient
/// rows of the workspace.
pub fn gather_candidates(
    matches: &Vec<MemoryRecord>,
    salient: &Vec<MemoryRecord>,
    query: &RecallQuery,
    now: i64,
    cap: usize,
) -> (r: Vec<MemoryRecord>)
    ensures
        models(r@) == candidates(models(matches@), models(salient@), query, now, cap as nat),
{
    let namespace = query.namespace.as_str();
    let workspace_id = query.workspace_id.as_str();
    let mut rows = keep_live(matches, namespace, workspace_id, now);
    let more = keep_live(salient, namespace, workspace_id, now);
    let ghost start = models(rows@);
    let ghost extra = models(more@);
    let mut i: usize = 0;
    assert(extra.skip(0) =~= extra);
    while i < more.len() && rows.len() < cap
        invariant
            i <= more@.len(),
            extra == models(more@),
            filled_up(start, extra, cap as nat) == filled_up(
                models(rows@),
                extra.skip(i as int),
                cap as nat,
            ),
        decreases more@.len() - i,
    {
        assert(extra.skip(i as int)[0] == extra[i as int]);
        assert(extra.skip(i as int).skip(1) =~= extra.skip(i + 1));
        if !has_id(&rows, more[i].id.as_str()) {
            let ghost before = models(rows@);
            rows.push(more[i].clone());
            assert(models(rows@) =~= before.push(extra[i as int]));
        }
        i += 1;
    }
    let ghost all = models(rows@);
    assert(all == filled_up(start, extra, cap as nat));
    let mut out: Vec<MemoryRecord> = Vec::new();
    let mut k: usize = 0;
    reveal(Seq::filter);
    assert(models(out@) =~= readable_rows(all.take(0), query.allow_private, query.allow_secret));
    while k < rows.len()
        invariant
            k <= rows@.len(),
            all == models(rows@),
            models(out@) == readable_rows(
                all.take(k as int),
                query.allow_private,
                query.allow_secret,
            ),
        decreases rows@.len() - k,
    {
        proof {
            reveal(Seq::filter);
            assert(all.take(k + 1).drop_last() =~= all.take(k as int));
        }
        if sensitivity_allowed(rows[k].sensitivity, query) {
            let ghost before = models(out@);
            out.push(rows[k].clone());
            assert(models(out@) =~= before.push(all[k as int]));
        }
        k += 1;
    }
    assert(all.take(all.len() as int) =~= all);
    out
}

proof fn filled_up_holds(
    rows: Seq<MemoryModel>,
    more: Seq<MemoryModel>,
    cap: nat,
    p: spec_fn(MemoryModel) -> bool,
)
    requires
        forall|i: int| 0 <= i < rows.len() ==> p(#[trigger] rows[i]),
        forall|i: int| 0 <= i < more.len() ==> p(#[trigger] more[i]),
    ensures
        forall|i: int|
            0 <= i < filled_up(rows, more, cap).len() ==> p(#[trigger] filled_up(rows, more, cap)[i]),
        filled_up(rows, more, cap).len() <= cap || filled_up(rows, more, cap).len() == rows.len(),
    decreases more.len(),
{
    if more.len() > 0 && rows.len() < cap {
        assert(p(more[0]));
        assert forall|i: int| 0 <= i < more.skip(1).len() implies p(
            #[trigger] more.skip(1)[i],
        ) by {
            assert(more.skip(1)[i] == more[i + 1]);
        }
        if lists_id(rows, more[0].id) {
            filled_up_holds(rows, more.skip(1), cap, p);
        } else {
            filled_up_holds(rows.push(more[0]), more.skip(1), cap, p);
        }
    }
}

/// No two memories of the list have the same identifier.
pub open spec fn distinct_ids(rows: Seq<MemoryModel>) -> bool {
    forall|i: int, j: int|
        0 <= i < rows.len() && 0 <= j < rows.len() && i != j ==> #[trigger] rows[i].id
            != #[trigger] rows[j].id
}

proof fn filled_up_distinct(rows: Seq<MemoryModel>, more: Seq<MemoryModel>, cap: nat)
    requires
        distinct_ids(rows),
    ensures
        distinct_ids(filled_up(rows, more, cap)),
    decreases more.len(),
{
    if more.len() > 0 && rows.len() < cap {
        if lists_id(rows, more[0].id) {
            filled_up_distinct(rows, more.skip(1), cap);
        } else {
            assert(distinct_ids(rows.push(more[0])));
            filled_up_distinct(rows.push(more[0]), more.skip(1), cap);
        }
    }
}

pub(crate) proof fn filter_distinct(rows: Seq<MemoryModel>, p: spec_fn(MemoryModel) -> bool)
    requires
        distinct_ids(rows),
    ensures
        distinct_ids(rows.filter(p)),
{
    let key = |m: MemoryModel| m.id;
    assert(keyed_apart(rows, key)) by {
        assert forall|i: int, j: int|
            0 <= i < rows.len() && 0 <= j < rows.len() && i != j implies key(#[trigger] rows[i])
            != key(#[trigger] rows[j]) by {
            assert(rows[i].id != rows[j].id);
        }
    }
    filter_keeps_apart(rows, p, key);
    let out = rows.filter(p);
    assert forall|i: int, j: int|
        0 <= i < out.len() && 0 <= j < out.len() && i != j implies #[trigger] out[i].id
        != #[trigger] out[j].id by {
        assert(key(out[i]) != key(out[j]));
    }
}

/// Whatever the storage hands out, a recall looks only at active memories of the workspace or
/// of all workspaces of the namespace, valid at the time, and not above the query's permissions.
pub proof fn recall_sees_only_admitted(
    matches: Seq<MemoryModel>,
    salient: Seq<MemoryModel>,
    query: RecallQuery,
    now: i64,
    cap: nat,
)
    ensures
        forall|i: int|
            0 <= i < candidates(matches, salient, &query, now, cap).len() ==> query.admits(
                #[trigger] candidates(matches, salient, &query, now, cap)[i],
                now,
            ),
{
    let ns = query.namespace@;
    let ws = query.workspace_id@;
    let live = |m: MemoryModel| m.live(ns, ws, now);
    let rows = live_rows(matches, ns, ws, now);
    let more = live_rows(salient, ns, ws, now);
    assert forall|i: int| 0 <= i < rows.len() implies live(#[trigger] rows[i]) by {
        matches.lemma_filter_pred(live, i);
    }
    assert forall|i: int| 0 <= i < more.len() implies live(#[trigger] more[i]) by {
        salient.lemma_filter_pred(live, i);
    }
    filled_up_holds(rows, more, cap, live);
    let all = filled_up(rows, more, cap);
    let ok = |m: MemoryModel| readable(m.sensitivity, query.allow_private, query.allow_secret);
    let out = candidates(matches, salient, &query, now, cap);
    assert(out == all.filter(ok));
    assert forall|i: int| 0 <= i < out.len() implies query.admits(#[trigger] out[i], now) by {
        all.lemma_filter_pred(ok, i);
        all.lemma_filter_contains_rev(ok, out[i]);
        let k = choose|k: int| 0 <= k < all.len() && all[k] == out[i];
        assert(live(all[k]));
    }
}

/// While no more than `cap` rows are live, every one of them that the query may see is a candidate,
/// whatever matched.
pub proof fn recall_sees_all_that_fit(
    rows: Seq<MemoryModel>,
    matches: Seq<MemoryModel>,
    query: RecallQuery,
    now: i64,
    cap: nat,
    m: MemoryModel,
)
    requires
        rows.len() <= usize::MAX,
        distinct_ids(rows),
        distinct_ids(matches),
        forall|v: MemoryModel| #[trigger] matches.contains(v) ==> rows.contains(v),
        live_rows(rows, query.namespace@, query.workspace_id@, now).len() <= cap,
        rows.contains(m),
        query.admits(m, now),
    ensures
        candidates(
            matches,
            salient(rows, query.namespace@, query.workspace_id@, now, cap as int),
            &query,
            now,
            cap,
        ).contains(m),
{
    let ns = query.namespace@;
    let ws = query.workspace_id@;
    let live = |v: MemoryModel| v.live(ns, ws, now);
    let ok = |v: MemoryModel| readable(v.sensitivity, query.allow_private, query.allow_secret);
    let all = live_rows(rows, ns, ws, now);
    let found = live_rows(matches, ns, ws, now);
    let best = salient(rows, ns, ws, now, cap as int);
    let more = live_rows(best, ns, ws, now);
    rows.lemma_filter_len(live);
    arranged_facts(all, salience_places(all), |v: MemoryModel| salience(v));
    filter_values(rows, live, m);
    assert(best.contains(m));
    filter_values(best, live, m);
    filter_distinct(matches, live);
    filter_distinct(rows, live);
    assert forall|v: MemoryModel| #[trigger] found.contains(v) implies all.contains(v) by {
        filter_values(matches, live, v);
        filter_values(rows, live, v);
    }
    assert forall|v: MemoryModel| #[trigger] more.contains(v) implies all.contains(v) by {
        filter_values(best, live, v);
        assert(best.contains(v));
    }
    filled_up_takes_all(found, more, all, cap, m);
    filter_values(filled_up(found, more, cap), ok, m);
}

/// Filling up a list from rows that all fit leaves none of them out.
proof fn filled_up_takes_all(
    rows: Seq<MemoryModel>,
    more: Seq<MemoryModel>,
    all: Seq<MemoryModel>,
    cap: nat,
    m: MemoryModel,
)
    requires
        distinct_ids(rows),
        distinct_ids(all),
        all.len() <= cap,
        forall|v: MemoryModel| #[trigger] rows.contains(v) ==> all.contains(v),
        forall|v: MemoryModel| #[trigger] more.contains(v) ==> all.contains(v),
        rows.contains(m) || more.contains(m),
    ensures
        filled_up(rows, more, cap).contains(m),
    decreases more.len(),
{
    if more.len() > 0 && rows.len() >= cap {
        full_list_holds_all(rows, all, m);
    } else if more.len() > 0 {
        let v = more[0];
        let rest = more.skip(1);
        assert(more.contains(v));
        assert forall|u: MemoryModel| #[trigger] rest.contains(u) implies all.contains(u) by {
            let k = choose|k: int| 0 <= k < rest.len() && rest[k] == u;
            assert(more[k + 1] == u);
            assert(more.contains(u));
        }
        if more.contains(m) && m != v {
            let k = choose|k: int| 0 <= k < more.len() && more[k] == m;
            assert(rest[k - 1] == m);
        }
        if lists_id(rows, v.id) {
            let k = choose|k: int| 0 <= k < rows.len() && (#[trigger] rows[k]).id == v.id;
            assert(rows.contains(rows[k]));
            let i = choose|i: int| 0 <= i < all.len() && all[i] == rows[k];
            let j = choose|j: int| 0 <= j < all.len() && all[j] == v;
            assert(i == j);
            filled_up_takes_all(rows, rest, all, cap, m);
        } else {
            let next = rows.push(v);
            assert forall|i: int, j: int|
                0 <= i < next.len() && 0 <= j < next.len() && i != j implies #[trigger] next[i].id
                != #[trigger] next[j].id by {
                if i < rows.len() && j < rows.len() {
                    assert(rows[i].id != rows[j].id);
                }
            }
            assert forall|u: MemoryModel| #[trigger] next.contains(u) implies all.contains(u) by {
                let k = choose|k: int| 0 <= k < next.len() && next[k] == u;
                if k < rows.len() {
                    assert(rows.contains(u));
                }
            }
            if rows.contains(m) {
                let k = choose|k: int| 0 <= k < rows.len() && rows[k] == m;
                assert(next[k] == m);
            }
            assert(next[rows.len() as int] == v);
            filled_up_takes_all(next, rest, all, cap, m);
        }
    }
}

/// A list without repetitions that is as long as the one it is taken from holds all of it.
proof fn full_list_holds_all(rows: Seq<MemoryModel>, all: Seq<MemoryModel>, m: MemoryModel)
    requires
        distinct_ids(rows),
        distinct_ids(all),
        rows.len() >= all.len(),
        forall|v: MemoryModel| #[trigger] rows.contains(v) ==> all.contains(v),
        all.contains(m),
    ensures
        rows.contains(m),
{
    assert(rows.no_duplicates()) by {
        assert forall|i: int, j: int| 0 <= i < rows.len() && 0 <= j < rows.len() && i != j implies
            rows[i] != rows[j] by {
            assert(rows[i].id != rows[j].id);
        }
    }
    assert(all.no_duplicates()) by {
        assert forall|i: int, j: int| 0 <= i < all.len() && 0 <= j < all.len() && i != j implies
            all[i] != all[j] by {
            assert(all[i].id != all[j].id);
        }
    }
    rows.unique_seq_to_set();
    all.unique_seq_to_set();
    let a = rows.to_set();
    let b = all.to_set();
    assert(a.subset_of(b)) by {
        assert forall|v: MemoryModel| #[trigger] a.contains(v) implies b.contains(v) by {
            assert(rows.contains(v));
        }
    }
    if !rows.contains(m) {
        assert(a.subset_of(b.remove(m)));
        vstd::set_lib::lemma_len_subset(a, b.remove(m));
    }
}

/// A recall looks at no memory twice and at no more than `cap`, given rows that the storage
/// lists once each and as many matches as were asked for.
pub proof fn recall_is_bounded(
    matches: Seq<MemoryModel>,
    salient: Seq<MemoryModel>,
    query: RecallQuery,
    now: i64,
    cap: nat,
)
    requires
        distinct_ids(matches),
        matches.len() <= cap,
    ensures
        distinct_ids(candidates(matches, salient, &query, now, cap)),
        candidates(matches, salient, &query, now, cap).len() <= cap,
{
    let ns = query.namespace@;
    let ws = query.workspace_id@;
    let live = |m: MemoryModel| m.live(ns, ws, now);
    let rows = live_rows(matches, ns, ws, now);
    let more = live_rows(salient, ns, ws, now);
    filter_distinct(matches, live);
    matches.lemma_filter_len(live);
    filled_up_distinct(rows, more, cap);
    filled_up_holds(rows, more, cap, |m: MemoryModel| true);
    let all = filled_up(rows, more, cap);
    let ok = |m: MemoryModel| readable(m.sensitivity, query.allow_private, query.allow_secret);
    filter_distinct(all, ok);
    all.lemma_filter_len(ok);
}

/// The score that the last entry for the memory gives it.
pub open spec fn last_score(scores: Seq<SemanticScore>, id: Seq<char>) -> Option<Single>
    decreases scores.len(),
{
    if scores.len() == 0 {
        None
    } else if scores.last().memory_id@ == id {
        Some(scores.last().score)
    } else {
        last_score(scores.drop_last(), id)
    }
}

/// The semantic score of a memory; where it is scored more than once, the last score counts.
pub fn semantic_score_of(scores: &Vec<SemanticScore>, id: &str) -> (r: Option<Single>)
    ensures
        r == last_score(scores@, id@),
{
    let mut i: usize = scores.len();
    assert(scores@.take(i as int) =~= scores@);
    while i > 0
        invariant
            i <= scores@.len(),
            last_score(scores@, id@) == last_score(scores@.take(i as int), id@),
        decreases i,
    {
        assert(scores@.take(i as int).last() == scores@[i - 1]);
        assert(scores@.take(i as int).drop_last() =~= scores@.take(i - 1));
        i -= 1;
        if same_text(scores[i].memory_id.as_str(), id) {
            return Some(scores[i].score);
        }
    }
    None
}

/// What the semantic score contributes to a recall: between zero and one, zero where there is
/// none.
pub fn semantic_weight(scores: &Vec<SemanticScore>, id: &str) -> (r: Single)
    ensures
        r == semantic_part(scores@, id@),
{
    match semantic_score_of(scores, id) {
        Some(s) => s.clamp_unit(),
        None => Single { bits: 0 },
    }
}

/// The pattern of 0.12.
pub const POSITION_STEP: u32 = 0x3df5_c28f;

/// The pattern of 0.48.
pub const PLAIN_LEXICAL: u32 = 0x3ef5_c28f;

/// The pattern of 0.32.
pub const PLAIN_RETENTION: u32 = 0x3ea3_d70a;

/// The pattern of 0.20.
pub const PLAIN_POSITION: u32 = 0x3e4c_cccd;

/// The pattern of 0.30.
pub const RERANKED_LEXICAL: u32 = 0x3e99_999a;

/// The pattern of 0.35.
pub const RERANKED_SEMANTIC: u32 = 0x3eb3_3333;

/// The pattern of 0.20.
pub const RERANKED_RETENTION: u32 = 0x3e4c_cccd;

/// The pattern of 0.15.
pub const RERANKED_POSITION: u32 = 0x3e19_999a;

/// What the semantic score contributes to a recall: between zero and one, zero where there is
/// none.
pub open spec fn semantic_part(scores: Seq<SemanticScore>, id: Seq<char>) -> Single {
    match last_score(scores, id) {
        Some(s) => s.unit_clamped(),
        None => Single { bits: 0 },
    }
}

/// What the position among the candidates contributes to a recall.
pub open spec fn position_part(index: int) -> Single {
    quotient(
        Single { bits: ONE_BITS },
        sum(
            Single { bits: ONE_BITS },
            product(of_count(index), Single { bits: POSITION_STEP }),
        ),
    )
}

/// The score of a candidate in a recall.
pub open spec fn recall_worth(
    text: Seq<char>,
    m: MemoryModel,
    index: int,
    scores: Seq<SemanticScore>,
    now: i64,
    use_log: Single,
) -> Single {
    let lexical = similarity(text, m.normalized_content);
    let retained = m.retention(now, use_log).smaller(Single { bits: FULL_RETENTION });
    let position = position_part(index);
    if scores.len() > 0 {
        sum(
            sum(
                sum(
                    product(lexical, Single { bits: RERANKED_LEXICAL }),
                    product(semantic_part(scores, m.id), Single { bits: RERANKED_SEMANTIC }),
                ),
                product(retained, Single { bits: RERANKED_RETENTION }),
            ),
            product(position, Single { bits: RERANKED_POSITION }),
        )
    } else {
        sum(
            sum(
                product(lexical, Single { bits: PLAIN_LEXICAL }),
                product(retained, Single { bits: PLAIN_RETENTION }),
            ),
            product(position, Single { bits: PLAIN_POSITION }),
        )
    }
}

/// Scores a candidate by its terms, its retention, its position among the candidates and, where a
/// reranker answered, its semantic score.
pub fn recall_score(
    text: &str,
    memory: &MemoryRecord,
    index: usize,
    scores: &Vec<SemanticScore>,
    now: i64,
    use_log: Single,
) -> (r: Single)
    ensures
        r == recall_worth(text@, memory@, index as int, scores@, now, use_log),
{
    let one = Single { bits: ONE_BITS };
    let lexical = lexical_similarity(text, memory);
    let retained = retention_score(memory, now, use_log).min(Single { bits: FULL_RETENTION });
    let position = one.over(
        one.plus(Single::from_count(index as u128).times(Single { bits: POSITION_STEP })),
    );
    if scores.len() > 0 {
        let semantic = semantic_weight(scores, memory.id.as_str());
        lexical.times(Single { bits: RERANKED_LEXICAL }).plus(
            semantic.times(Single { bits: RERANKED_SEMANTIC }),
        ).plus(retained.times(Single { bits: RERANKED_RETENTION })).plus(
            position.times(Single { bits: RERANKED_POSITION }),
        )
    } else {
        lexical.times(Single { bits: PLAIN_LEXICAL }).plus(
            retained.times(Single { bits: PLAIN_RETENTION }),
        ).plus(position.times(Single { bits: PLAIN_POSITION }))
    }
}

/// A candidate that is found earlier scores no lower.
proof fn position_falls(earlier: int, later: int)
    requires
        0 <= earlier <= later,
    ensures
        position_part(earlier).nonnegative(),
        position_part(later).nonnegative(),
        position_part(later).order() <= position_part(earlier).order(),
{
    let one = Single { bits: ONE_BITS };
    let none = Single { bits: 0 };
    let step = Single { bits: POSITION_STEP };
    counts_grow(earlier, later);
    product_grows(of_count(earlier), of_count(later), step);
    let x = product(of_count(earlier), step);
    let y = product(of_count(later), step);
    sum_grows(x, y, one);
    sum_grows(y, y, one);
    sum_grows(none, x, one);
    sum_is_kept(one);
    quotient_falls(one, sum(one, x), sum(one, y));
}

/// A candidate that is found no later, shares no fewer of its terms with the query, is worth
/// keeping no less and gets no lower semantic score, scores no lower.
pub proof fn better_candidates_score_no_lower(
    text: Seq<char>,
    worse: MemoryModel,
    better: MemoryModel,
    later: int,
    earlier: int,
    scores: Seq<SemanticScore>,
    now: i64,
    worse_log: Single,
    better_log: Single,
)
    requires
        0 <= earlier <= later,
        similarity(text, worse.normalized_content).nonnegative(),
        similarity(text, better.normalized_content).nonnegative(),
        similarity(text, worse.normalized_content).order() <= similarity(
            text,
            better.normalized_content,
        ).order(),
        semantic_part(scores, worse.id).nonnegative(),
        semantic_part(scores, better.id).nonnegative(),
        semantic_part(scores, worse.id).order() <= semantic_part(scores, better.id).order(),
        worse.retention(now, worse_log).nonnegative(),
        better.retention(now, better_log).nonnegative(),
        worse.retention(now, worse_log).order() <= better.retention(now, better_log).order(),
    ensures
        recall_worth(text, worse, later, scores, now, worse_log).nonnegative(),
        recall_worth(text, better, earlier, scores, now, better_log).nonnegative(),
        recall_worth(text, worse, later, scores, now, worse_log).order() <= recall_worth(
            text,
            better,
            earlier,
            scores,
            now,
            better_log,
        ).order(),
{
    let cap = Single { bits: FULL_RETENTION };
    let a = similarity(text, worse.normalized_content);
    let b = similarity(text, better.normalized_content);
    let r = worse.retention(now, worse_log).smaller(cap);
    let t = better.retention(now, better_log).smaller(cap);
    let x = position_part(later);
    let y = position_part(earlier);
    position_falls(earlier, later);
    if scores.len() > 0 {
        let m = semantic_part(scores, worse.id);
        let n = semantic_part(scores, better.id);
        let w = Single { bits: RERANKED_LEXICAL };
        let v = Single { bits: RERANKED_SEMANTIC };
        product_grows(a, b, w);
        product_grows(m, n, v);
        sums_grow(product(a, w), product(b, w), product(m, v), product(n, v));
        rest_grows(
            sum(product(a, w), product(m, v)),
            sum(product(b, w), product(n, v)),
            r,
            t,
            x,
            y,
            Single { bits: RERANKED_RETENTION },
            Single { bits: RERANKED_POSITION },
        );
    } else {
        let w = Single { bits: PLAIN_LEXICAL };
        product_grows(a, b, w);
        rest_grows(
            product(a, w),
            product(b, w),
            r,
            t,
            x,
            y,
            Single { bits: PLAIN_RETENTION },
            Single { bits: PLAIN_POSITION },
        );
    }
}

proof fn rest_grows(
    a: Single,
    b: Single,
    r: Single,
    t: Single,
    x: Single,
    y: Single,
    w: Single,
    v: Single,
)
    requires
        a.nonnegative(),
        b.nonnegative(),
        r.nonnegative(),
        t.nonnegative(),
        x.nonnegative(),
        y.nonnegative(),
        a.order() <= b.order(),
        r.order() <= t.order(),
        x.order() <= y.order(),
        0 < w.bits < INFINITE_BITS,
        0 < v.bits < INFINITE_BITS,
    ensures
        sum(sum(a, product(r, w)), product(x, v)).nonnegative(),
        sum(sum(b, product(t, w)), product(y, v)).nonnegative(),
        sum(sum(a, product(r, w)), product(x, v)).order() <= sum(
            sum(b, product(t, w)),
            product(y, v),
        ).order(),
{
    product_grows(r, t, w);
    product_grows(x, y, v);
    sums_grow(a, b, product(r, w), product(t, w));
    sums_grow(sum(a, product(r, w)), sum(b, product(t, w)), product(x, v), product(y, v));
}

/// A memory and the score by which it is ranked.
#[derive(Debug)]
pub struct ScoredMemory {
    pub score: Single,
    pub memory: MemoryRecord,
}

impl Clone for ScoredMemory {
    fn clone(&self) -> (r: ScoredMemory)
        ensures
            r == *self,
    {
        ScoredMemory { score: self.score, memory: self.memory.clone() }
    }
}

/// No two of the scored memories have the same identifier.
pub open spec fn told_apart(items: Seq<ScoredMemory>) -> bool {
    forall|i: int, j: int|
        0 <= i < items.len() && 0 <= j < items.len() && i != j ==> #[trigger] items[i].memory@.id
            != #[trigger] items[j].memory@.id
}

/// Where a score puts a memory: the highest score first, then by identifier.
pub open spec fn rank_place(score: Single, id: Seq<char>) -> Place {
    Place { first: -1 - score.total(), second: 0, third: 0, fourth: 0, text: id }
}

fn rank_key(score: Single, id: &str) -> (r: SortKey)
    ensures
        r@ == rank_place(score, id@),
{
    SortKey {
        first: descending(score.total_key()),
        second: 0,
        third: 0,
        fourth: 0,
        text: chars_of(id),
    }
}

/// The places of scored memories.
pub open spec fn recall_places(items: Seq<ScoredMemory>) -> Seq<Place> {
    Seq::new(items.len(), |i: int| rank_place(items[i].score, items[i].memory@.id))
}

/// Scored memories, the highest score first, equal scores by identifier.
pub open spec fn ranked(items: Seq<ScoredMemory>) -> Seq<ScoredMemory> {
    arranged(items, recall_places(items))
}

/// The leading items.
pub open spec fn top<T>(items: Seq<T>, n: int) -> Seq<T> {
    if items.len() > n {
        items.take(n)
    } else {
        items
    }
}

/// The memories that a recall returns: the highest ranked ones, as many as the limit allows.
pub open spec fn recalled(items: Seq<ScoredMemory>, limit: usize) -> Seq<MemoryRecord> {
    top(ranked(items), within(limit as int, 1, 50)).map_values(|s: ScoredMemory| s.memory)
}

/// Ranks scored candidates and picks those that a recall returns.
pub fn select_recalled(items: &Vec<ScoredMemory>, limit: usize) -> (r: Vec<MemoryRecord>)
    ensures
        r@ == recalled(items@, limit),
        has_stable_order(recall_places(items@)),
{
    let mut keys: Vec<SortKey> = Vec::new();
    let mut i: usize = 0;
    while i < items.len()
        invariant
            i <= items@.len(),
            keys@.len() == i,
            forall|k: int|
                0 <= k < i ==> (#[trigger] keys@[k])@ == rank_place(
                    items@[k].score,
                    items@[k].memory@.id,
                ),
        decreases items@.len() - i,
    {
        keys.push(rank_key(items[i].score, items[i].memory.id.as_str()));
        i += 1;
    }
    assert(places(keys@) =~= recall_places(items@));
    let order = stable_order(&keys);
    let count = recall_limit(limit);
    let mut out: Vec<MemoryRecord> = Vec::new();
    let mut n: usize = 0;
    while n < order.len() && n < count
        invariant
            n <= order@.len(),
            n <= count,
            out@.len() == n,
            order@.len() == items@.len(),
            order@ == stable_positions(recall_places(items@)),
            forall|k: int| 0 <= k < order@.len() ==> (#[trigger] order@[k]) < items@.len(),
            forall|k: int| 0 <= k < n ==> #[trigger] out@[k] == ranked(items@)[k].memory,
        decreases order@.len() - n,
    {
        out.push(items[order[n]].memory.clone());
        n += 1;
    }
    assert(out@ =~= recalled(items@, limit));
    out
}

/// The candidates, each with its score in a recall.
pub open spec fn scored_for_recall(
    text: Seq<char>,
    items: Seq<UsedMemory>,
    scores: Seq<SemanticScore>,
    now: i64,
) -> Seq<ScoredMemory> {
    Seq::new(
        items.len(),
        |i: int|
            ScoredMemory {
                score: recall_worth(text, items[i].memory@, i, scores, now, items[i].use_log),
                memory: items[i].memory,
            },
    )
}

/// Scores the candidates of a recall, which come in the order in which they were found, and picks
/// those that it returns.
pub fn rank_recalled(
    query: &RecallQuery,
    candidates: &Vec<UsedMemory>,
    scores: &Vec<SemanticScore>,
    now: i64,
) -> (r: Vec<MemoryRecord>)
    ensures
        r@ == recalled(
            scored_for_recall(query.text@, candidates@, scores@, now),
            query.limit,
        ),
        has_stable_order(
            recall_places(scored_for_recall(query.text@, candidates@, scores@, now)),
        ),
{
    let ghost wanted = scored_for_recall(query.text@, candidates@, scores@, now);
    let mut items: Vec<ScoredMemory> = Vec::new();
    let mut i: usize = 0;
    while i < candidates.len()
        invariant
            i <= candidates@.len(),
            wanted == scored_for_recall(query.text@, candidates@, scores@, now),
            items@ == wanted.take(i as int),
        decreases candidates@.len() - i,
    {
        let memory = &candidates[i].memory;
        items.push(
            ScoredMemory {
                score: recall_score(
                    query.text.as_str(),
                    memory,
                    i,
                    scores,
                    now,
                    candidates[i].use_log,
                ),
                memory: memory.clone(),
            },
        );
        i += 1;
        assert(items@ =~= wanted.take(i as int));
    }
    assert(items@ =~= wanted);
    select_recalled(&items, query.limit)
}

/// Which candidates a recall ranks first does not depend on the order in which they come.
pub proof fn recall_order_is_determined(a: Seq<ScoredMemory>, b: Seq<ScoredMemory>, limit: usize)
    requires
        a.len() <= usize::MAX,
        b.len() <= usize::MAX,
        told_apart(a),
        told_apart(b),
        forall|v: ScoredMemory| #[trigger] a.contains(v) <==> b.contains(v),
    ensures
        recalled(a, limit) == recalled(b, limit),
{
    let place = |s: ScoredMemory| rank_place(s.score, s.memory@.id);
    arranged_facts(a, recall_places(a), place);
    arranged_facts(b, recall_places(b), place);
    assert forall|i: int, j: int| 0 <= i < a.len() && 0 <= j < a.len() && i != j implies
        #[trigger] recall_places(a)[i] != #[trigger] recall_places(a)[j] by {
        assert(a[i].memory@.id != a[j].memory@.id);
    }
    assert forall|i: int, j: int| 0 <= i < b.len() && 0 <= j < b.len() && i != j implies
        #[trigger] recall_places(b)[i] != #[trigger] recall_places(b)[j] by {
        assert(b[i].memory@.id != b[j].memory@.id);
    }
    assert forall|v: ScoredMemory| #[trigger] ranked(a).contains(v) <==> ranked(b).contains(v) by {
        assert(ranked(a).contains(v) <==> a.contains(v));
        assert(ranked(b).contains(v) <==> b.contains(v));
    }
    placed_lists_agree(ranked(a), ranked(b), place);
}

/// A recall returns as many candidates as its limit allows, which lies between one and fifty, each
/// of them among those it was given, and nothing that it leaves out scores higher than anything it
/// returns.
pub proof fn recall_returns_the_best(items: Seq<ScoredMemory>, limit: usize)
    requires
        items.len() <= usize::MAX,
    ensures
        recalled(items, limit).len() == (if items.len() < within(limit as int, 1, 50) {
            items.len() as int
        } else {
            within(limit as int, 1, 50)
        }),
        forall|i: int|
            0 <= i < recalled(items, limit).len() ==> exists|k: int|
                0 <= k < items.len() && #[trigger] recalled(items, limit)[i] == (
                #[trigger] items[k]).memory,
        forall|i: int, j: int|
            0 <= i < j < items.len() ==> (#[trigger] ranked(items)[i]).score.total() >= (
            #[trigger] ranked(items)[j]).score.total(),
{
    let place = |s: ScoredMemory| rank_place(s.score, s.memory@.id);
    arranged_facts(items, recall_places(items), place);
    assert forall|i: int| 0 <= i < recalled(items, limit).len() implies exists|k: int|
        0 <= k < items.len() && #[trigger] recalled(items, limit)[i] == (#[trigger] items[k]).memory by {
        assert(ranked(items).contains(ranked(items)[i]));
        assert(items.contains(ranked(items)[i]));
        let k = choose|k: int| 0 <= k < items.len() && items[k] == ranked(items)[i];
        assert(recalled(items, limit)[i] == items[k].memory);
    }
    assert forall|i: int, j: int| 0 <= i < j < items.len() implies (
    #[trigger] ranked(items)[i]).score.total() >= (#[trigger] ranked(items)[j]).score.total() by {
        assert(!place(ranked(items)[j]).less(place(ranked(items)[i])));
    }
}

/// The candidates that are not distinct from the new memory.
pub open spec fn mergeable(items: Seq<MergeCandidate>) -> Seq<MergeCandidate> {
    items.filter(|c: MergeCandidate| c.assessment.disposition != MergeDisposition::Distinct)
}

/// The places of merge candidates.
pub open spec fn merge_places(items: Seq<MergeCandidate>) -> Seq<Place> {
    Seq::new(items.len(), |i: int| rank_place(items[i].assessment.score, items[i].memory@.id))
}

/// The merge candidates to report: those not distinct, the highest score first, equal scores by
/// identifier, as many as the limit allows.
pub open spec fn reported(items: Seq<MergeCandidate>, limit: usize) -> Seq<MergeCandidate> {
    top(
        arranged(mergeable(items), merge_places(mergeable(items))),
        within(limit as int, 1, 32),
    )
}

/// Picks the merge candidates to report.
pub fn select_merge_candidates(
    items: &Vec<MergeCandidate>,
    limit: usize,
) -> (r: Vec<MergeCandidate>)
    ensures
        r@ == reported(items@, limit),
        has_stable_order(merge_places(mergeable(items@))),
{
    let mut kept: Vec<MergeCandidate> = Vec::new();
    let mut keys: Vec<SortKey> = Vec::new();
    let mut i: usize = 0;
    reveal(Seq::filter);
    assert(kept@ =~= mergeable(items@.take(0)));
    while i < items.len()
        invariant
            i <= items@.len(),
            kept@ == mergeable(items@.take(i as int)),
            keys@.len() == kept@.len(),
            forall|k: int|
                0 <= k < keys@.len() ==> (#[trigger] keys@[k])@ == rank_place(
                    kept@[k].assessment.score,
                    kept@[k].memory@.id,
                ),
        decreases items@.len() - i,
    {
        proof {
            reveal(Seq::filter);
            assert(items@.take(i + 1).drop_last() =~= items@.take(i as int));
        }
        if items[i].assessment.disposition != MergeDisposition::Distinct {
            keys.push(rank_key(items[i].assessment.score, items[i].memory.id.as_str()));
            kept.push(items[i].clone());
        }
        i += 1;
    }
    assert(items@.take(items@.len() as int) =~= items@);
    assert(places(keys@) =~= merge_places(kept@));
    let order = stable_order(&keys);
    let count = merge_limit(limit);
    let mut out: Vec<MergeCandidate> = Vec::new();
    let mut n: usize = 0;
    let ghost sorted = arranged(kept@, merge_places(kept@));
    while n < order.len() && n < count
        invariant
            n <= order@.len(),
            n <= count,
            out@.len() == n,
            order@.len() == kept@.len(),
            order@ == stable_positions(merge_places(kept@)),
            sorted == arranged(kept@, merge_places(kept@)),
            forall|k: int| 0 <= k < order@.len() ==> (#[trigger] order@[k]) < kept@.len(),
            forall|k: int| 0 <= k < n ==> #[trigger] out@[k] == sorted[k],
        decreases order@.len() - n,
    {
        out.push(kept[order[n]].clone());
        n += 1;
    }
    assert(out@ =~= reported(items@, limit));
    out
}

/// Whether these are the stored memories, each compared with the new one.
pub open spec fn assessed(
    items: Seq<MergeCandidate>,
    existing: Seq<MemoryRecord>,
    incoming: NewMemory,
    scores: Seq<SemanticScore>,
) -> bool {
    &&& items.len() == existing.len()
    &&& forall|i: int|
        0 <= i < items.len() ==> (#[trigger] items[i]).memory == existing[i] && assesses(
            items[i].assessment,
            existing[i]@,
            incoming,
            last_score(scores, existing[i]@.id),
        )
}

/// Compares a new memory with stored ones and picks those to report.
pub fn report_merge_candidates(
    existing: &Vec<MemoryRecord>,
    incoming: &NewMemory,
    scores: &Vec<SemanticScore>,
    limit: usize,
) -> (r: Vec<MergeCandidate>)
    ensures
        exists|items: Seq<MergeCandidate>|
            assessed(items, existing@, *incoming, scores@) && r@ == #[trigger] reported(items, limit)
                && has_stable_order(merge_places(mergeable(items))),
{
    let mut items: Vec<MergeCandidate> = Vec::new();
    let mut i: usize = 0;
    while i < existing.len()
        invariant
            i <= existing@.len(),
            assessed(items@, existing@.take(i as int), *incoming, scores@),
        decreases existing@.len() - i,
    {
        let memory = &existing[i];
        let semantic = semantic_score_of(scores, memory.id.as_str());
        items.push(
            MergeCandidate {
                memory: memory.clone(),
                assessment: assess_merge_candidate(memory, incoming, semantic),
            },
        );
        i += 1;
    }
    assert(existing@.take(i as int) =~= existing@);
    select_merge_candidates(&items, limit)
}

/// Of the merge candidates that are reported, each was assessed, none is distinct, and no more
/// than thirty-two are there; no candidate that is left out scores higher.
pub proof fn reports_are_bounded(items: Seq<MergeCandidate>, limit: usize)
    requires
        items.len() <= usize::MAX,
    ensures
        reported(items, limit).len() <= within(limit as int, 1, 32) <= 32,
        mergeable(items).len() > 0 ==> reported(items, limit).len() > 0,
        forall|i: int|
            0 <= i < reported(items, limit).len() ==> items.contains(
                #[trigger] reported(items, limit)[i],
            ) && reported(items, limit)[i].assessment.disposition != MergeDisposition::Distinct,
        forall|i: int, c: MergeCandidate|
            0 <= i < reported(items, limit).len() && items.contains(c) && c.assessment.disposition
                != MergeDisposition::Distinct && !(#[trigger] reported(items, limit).contains(c))
                ==> c.assessment.score.total() <= (#[trigger] reported(
                items,
                limit,
            )[i]).assessment.score.total(),
{
    let p = |c: MergeCandidate| c.assessment.disposition != MergeDisposition::Distinct;
    let place = |c: MergeCandidate| rank_place(c.assessment.score, c.memory@.id);
    let kept = mergeable(items);
    let sorted = arranged(kept, merge_places(kept));
    let out = reported(items, limit);
    items.lemma_filter_len(p);
    arranged_facts(kept, merge_places(kept), place);
    assert forall|i: int| 0 <= i < out.len() implies items.contains(#[trigger] out[i])
        && out[i].assessment.disposition != MergeDisposition::Distinct by {
        assert(sorted.contains(sorted[i]));
        filter_values(items, p, out[i]);
    }
    assert forall|i: int, c: MergeCandidate|
        0 <= i < out.len() && items.contains(c) && c.assessment.disposition
            != MergeDisposition::Distinct && !(#[trigger] out.contains(
            c,
        )) implies c.assessment.score.total() <= (
    #[trigger] out[i]).assessment.score.total() by {
        filter_values(items, p, c);
        assert(sorted.contains(c));
        let k = choose|k: int| 0 <= k < sorted.len() && sorted[k] == c;
        if k < out.len() {
            assert(out[k] == c);
        }
        assert(!place(sorted[k]).less(place(sorted[i])));
    }
}

/// A live memory is left out only in favour of `cap` others, none of which is less salient.
pub proof fn salient_rows_come_first(
    rows: Seq<MemoryModel>,
    namespace: Seq<char>,
    workspace_id: Seq<char>,
    now: i64,
    cap: int,
    m: MemoryModel,
)
    requires
        rows.len() <= usize::MAX,
        cap >= 0,
        rows.contains(m),
        m.live(namespace, workspace_id, now),
        !salient(rows, namespace, workspace_id, now, cap).contains(m),
    ensures
        salient(rows, namespace, workspace_id, now, cap).len() == cap,
        forall|i: int|
            0 <= i < cap ==> !salience(m).less(
                salience(#[trigger] salient(rows, namespace, workspace_id, now, cap)[i]),
            ),
{
    let p = |m: MemoryModel| m.live(namespace, workspace_id, now);
    let live = live_rows(rows, namespace, workspace_id, now);
    rows.lemma_filter_len(p);
    arranged_facts(live, salience_places(live), |m: MemoryModel| salience(m));
    filter_values(rows, p, m);
    let all = by_salience(live);
    assert(all.contains(m));
    let k = choose|k: int| 0 <= k < all.len() && all[k] == m;
    let out = salient(rows, namespace, workspace_id, now, cap);
    if k < cap {
        assert(out[k] == m);
    }
    assert forall|i: int| 0 <= i < cap implies !salience(m).less(
        salience(#[trigger] out[i]),
    ) by {
        assert(out[i] == all[i]);
    }
}

/// The scores that are used: none where there is no reranker or it failed.
pub open spec fn usable_scores(
    answer: Option<Result<Vec<SemanticScore>>>,
) -> Seq<SemanticScore> {
    match answer {
        Some(Ok(scores)) => scores@,
        _ => Seq::empty(),
    }
}

/// The scores that are used, given what the reranker answered.
pub fn scores_from(answer: Option<Result<Vec<SemanticScore>>>) -> (r: Vec<SemanticScore>)
    ensures
        r@ == usable_scores(answer),
{
    match answer {
        Some(Ok(scores)) => scores,
        _ => Vec::new(),
    }
}

/// Asks the reranker, if there is one, to score the candidates. What it answers is its own affair;
/// without one there are no scores.
pub fn ask_reranker<R: SemanticReranker + ?Sized>(
    reranker: Option<&R>,
    text: &str,
    candidates: &Vec<MemoryRecord>,
) -> (r: Vec<SemanticScore>)
    ensures
        reranker is None ==> r@.len() == 0,
        reranker matches Some(ranker) ==> exists|
            asked: &[MemoryRecord],
            answer: Result<Vec<SemanticScore>>,
        |
            {
                &&& asked@ == candidates@
                &&& #[trigger] call_ensures(
                    R::score,
                    (ranker, text, asked),
                    answer,
                )
                &&& r@ == usable_scores(Some(answer))
            },
{
    let answer = match reranker {
        Some(ranker) => Some(ranker.score(text, candidates.as_slice())),
        None => None,
    };
    scores_from(answer)
}

/// The query that looks for memories which a new one may be merged with: its own text, in its own
/// workspace, whatever the sensitivity.
pub fn merge_query(memory: &NewMemory, limit: usize) -> (r: RecallQuery)
    ensures
        r.namespace@ == memory.namespace@,
        r.workspace_id@ == memory.workspace_id@,
        r.text@ == memory.content@,
        r.limit == within(limit as int, 1, 32),
        r.allow_private,
        r.allow_secret,
{
    RecallQuery {
        namespace: memory.namespace.clone(),
        workspace_id: memory.workspace_id.clone(),
        text: memory.content.clone(),
        limit: merge_limit(limit),
        allow_private: true,
        allow_secret: true,
    }
}

/// A memory that was just written, and does not run out at once, may be returned to a query of
/// its workspace that may see its sensitivity.
pub proof fn fresh_memory_is_admitted(
    memory: NewMemory,
    now: i64,
    id: Seq<char>,
    query: RecallQuery,
)
    requires
        memory.ttl_seconds matches Some(ttl) ==> now < i64::MAX && signed(ttl) > 0,
        memory.namespace@ == query.namespace@,
        memory.workspace_id@ == query.workspace_id@ || memory.scope == MemoryScope::Global,
        readable(memory.sensitivity, query.allow_private, query.allow_secret),
    ensures
        query.admits(memory.record(now, id), now),
{
}

/// However the candidates are scored, a recall returns only memories that the query admits.
pub proof fn recall_returns_only_admitted(
    matches: Seq<MemoryModel>,
    salient: Seq<MemoryModel>,
    query: RecallQuery,
    now: i64,
    cap: nat,
    scored: Seq<ScoredMemory>,
)
    requires
        scored.len() <= usize::MAX,
        scored.len() == candidates(matches, salient, &query, now, cap).len(),
        forall|i: int|
            0 <= i < scored.len() ==> (#[trigger] scored[i]).memory@ == candidates(
                matches,
                salient,
                &query,
                now,
                cap,
            )[i],
    ensures
        forall|i: int|
            0 <= i < recalled(scored, query.limit).len() ==> query.admits(
                (#[trigger] recalled(scored, query.limit)[i])@,
                now,
            ),
{
    let out = recalled(scored, query.limit);
    recall_sees_only_admitted(matches, salient, query, now, cap);
    recall_returns_the_best(scored, query.limit);
    assert forall|i: int| 0 <= i < out.len() implies query.admits((#[trigger] out[i])@, now) by {
        let k = choose|k: int|
            0 <= k < scored.len() && out[i] == (#[trigger] scored[k]).memory;
        assert(query.admits(candidates(matches, salient, &query, now, cap)[k], now));
    }
}

/// Where a reranker gave any score at all, however many, the score of a candidate is 0.30 of the
/// share of common terms, 0.35 of its semantic score, 0.20 of its retention and 0.15 of its position;
/// without one, 0.48, 0.32 and 0.20 of the three that are left. Retention counts for 1.25 at most,
/// and the candidate at position `index` has a position of 1 / (1 + 0.12 index).
pub proof fn recall_weighs_its_parts(
    text: Seq<char>,
    m: MemoryModel,
    index: int,
    scores: Seq<SemanticScore>,
    now: i64,
    use_log: Single,
    semantic: Single,
    retained: Single,
)
    requires
        0 <= index,
        retained == m.retention(now, use_log),
        !retained.nan(),
        retained.order() <= 0x3fa0_0000,
        semantic == semantic_part(scores, m.id),
    ensures
        ({
            let lexical = similarity(text, m.normalized_content);
            let one = Single { bits: 0x3f80_0000 };
            let position = quotient(
                one,
                sum(one, product(of_count(index), Single { bits: 0x3df5_c28f })),
            );
            &&& scores.len() >= 1 ==> recall_worth(text, m, index, scores, now, use_log) == sum(
                sum(
                    sum(
                        product(lexical, Single { bits: 0x3e99_999a }),
                        product(semantic, Single { bits: 0x3eb3_3333 }),
                    ),
                    product(retained, Single { bits: 0x3e4c_cccd }),
                ),
                product(position, Single { bits: 0x3e19_999a }),
            )
            &&& scores.len() == 0 ==> recall_worth(text, m, index, scores, now, use_log) == sum(
                sum(
                    product(lexical, Single { bits: 0x3ef5_c28f }),
                    product(retained, Single { bits: 0x3ea3_d70a }),
                ),
                product(position, Single { bits: 0x3e4c_cccd }),
            )
        }),
{
}

/// Retention above 1.25, and retention that is no number, counts as 1.25 in a recall.
pub proof fn retention_is_capped_in_recall(
    text: Seq<char>,
    m: MemoryModel,
    n: MemoryModel,
    index: int,
    scores: Seq<SemanticScore>,
    now: i64,
    m_log: Single,
    n_log: Single,
)
    requires
        m.id == n.id,
        m.normalized_content == n.normalized_content,
        m.retention(now, m_log).nan() || m.retention(now, m_log).order() >= 0x3fa0_0000,
        n.retention(now, n_log) == (Single { bits: 0x3fa0_0000 }),
    ensures
        recall_worth(text, m, index, scores, now, m_log) == recall_worth(
            text,
            n,
            index,
            scores,
            now,
            n_log,
        ),
{
    let r = m.retention(now, m_log);
    assert(r.nan() || r.order() > 0x3fa0_0000 || r == (Single { bits: 0x3fa0_0000 }));
}

/// A memory has the semantic score of the last entry that names it, brought between zero and one,
/// and none where no entry names it.
pub proof fn last_entry_gives_the_semantic_score(
    scores: Seq<SemanticScore>,
    id: Seq<char>,
    k: int,
)
    requires
        forall|j: int| k < j < scores.len() ==> (#[trigger] scores[j]).memory_id@ != id,
        -1 <= k < scores.len(),
        k >= 0 ==> scores[k].memory_id@ == id,
    ensures
        k >= 0 ==> last_score(scores, id) == Some(scores[k].score) && semantic_part(scores, id)
            == scores[k].score.unit_clamped(),
        k < 0 ==> last_score(scores, id) is None && semantic_part(scores, id) == (Single {
            bits: 0,
        }),
    decreases scores.len(),
{
    if scores.len() > 0 && k < scores.len() - 1 {
        let init = scores.drop_last();
        assert(scores[scores.len() - 1].memory_id@ != id);
        assert forall|j: int| k < j < init.len() implies (#[trigger] init[j]).memory_id@ != id by {
            assert(scores[j].memory_id@ != id);
        }
        last_entry_gives_the_semantic_score(init, id, k);
    }
}

/// Of two candidates, one that is found no later, shares no fewer of its terms, is worth keeping no
/// less and gets no lower semantic score ranks strictly higher as soon as it is clearly ahead in its
/// terms, in its retention or, where a reranker gave any score at all, in its semantic score.
pub proof fn clearly_better_candidates_score_higher(
    text: Seq<char>,
    worse: MemoryModel,
    better: MemoryModel,
    later: int,
    earlier: int,
    scores: Seq<SemanticScore>,
    now: i64,
    worse_log: Single,
    better_log: Single,
)
    requires
        0 <= earlier <= later,
        similarity(text, worse.normalized_content).unit(),
        similarity(text, better.normalized_content).unit(),
        similarity(text, worse.normalized_content).order() <= similarity(
            text,
            better.normalized_content,
        ).order(),
        semantic_part(scores, worse.id).unit(),
        semantic_part(scores, better.id).unit(),
        semantic_part(scores, worse.id).order() <= semantic_part(scores, better.id).order(),
        worse.retention(now, worse_log).nonnegative(),
        better.retention(now, better_log).nonnegative(),
        worse.retention(now, worse_log).order() <= better.retention(now, better_log).order(),
        better.retention(now, better_log).order() <= 0x3fa0_0000,
        (scores.len() > 0 && semantic_part(scores, better.id).clearly_above(
            semantic_part(scores, worse.id),
        )) || similarity(text, better.normalized_content).clearly_above(
            similarity(text, worse.normalized_content),
        ) || better.retention(now, better_log).clearly_above(worse.retention(now, worse_log)),
    ensures
        recall_worth(text, better, earlier, scores, now, better_log).nonnegative(),
        recall_worth(text, worse, later, scores, now, worse_log).order() < recall_worth(
            text,
            better,
            earlier,
            scores,
            now,
            better_log,
        ).order(),
        recall_worth(text, worse, later, scores, now, worse_log).total() < recall_worth(
            text,
            better,
            earlier,
            scores,
            now,
            better_log,
        ).total(),
{
    let a = similarity(text, worse.normalized_content);
    let b = similarity(text, better.normalized_content);
    let r = worse.retention(now, worse_log);
    let t = better.retention(now, better_log);
    let x = position_part(later);
    let y = position_part(earlier);
    let m = semantic_part(scores, worse.id);
    let n = semantic_part(scores, better.id);
    position_falls(earlier, later);
    position_falls(0, earlier);
    first_position();
    if scores.len() > 0 {
        four_parts_tell(a, b, m, n, r, t, x, y);
    } else {
        three_parts_tell(a, b, r, t, x, y);
    }
}

/// Whether two numbers are such as the parts of a recall are, the second no smaller.
spec fn ascending_parts(x: Single, y: Single) -> bool {
    x.nonnegative() && y.nonnegative() && x.order() <= y.order() <= 0x3fa0_0000
}

proof fn four_parts_tell(
    a: Single,
    b: Single,
    m: Single,
    n: Single,
    r: Single,
    t: Single,
    x: Single,
    y: Single,
)
    requires
        ascending_parts(a, b),
        ascending_parts(m, n),
        ascending_parts(r, t),
        ascending_parts(x, y),
        b.clearly_above(a) || n.clearly_above(m) || t.clearly_above(r),
    ensures
        ({
            let w = Single { bits: 0x3e99_999a };
            let v = Single { bits: 0x3eb3_3333 };
            let q = Single { bits: 0x3e4c_cccd };
            let z = Single { bits: 0x3e19_999a };
            let low = sum(sum(sum(product(a, w), product(m, v)), product(r, q)), product(x, z));
            let high = sum(sum(sum(product(b, w), product(n, v)), product(t, q)), product(y, z));
            &&& low.nonnegative()
            &&& high.nonnegative()
            &&& low.order() < high.order()
        }),
{
    let w = Single { bits: 0x3e99_999a };
    let v = Single { bits: 0x3eb3_3333 };
    let q = Single { bits: 0x3e4c_cccd };
    let z = Single { bits: 0x3e19_999a };
    scale_of_weights();
    product_in_units(a, b, w);
    product_in_units(m, n, v);
    product_in_units(r, t, q);
    product_in_units(x, y, z);
    let (a1, a2) = (product(a, w), product(b, w));
    let (b1, b2) = (product(m, v), product(n, v));
    let (c1, c2) = (product(r, q), product(t, q));
    let (d1, d2) = (product(x, z), product(y, z));
    sums_in_units(a1, a2, b1, b2);
    let (p1, p2) = (sum(a1, b1), sum(a2, b2));
    let u = doubled(1, 123);
    let gap = a2.units() + b2.units() + c2.units() - a1.units() - b1.units() - c1.units();
    assert(gap >= 1024 * u);
    sums_in_units_total(p1, p2, c1, c2, d1, d2);
    more_units_are_larger(sum(sum(p1, c1), d1), sum(sum(p2, c2), d2));
}

proof fn three_parts_tell(a: Single, b: Single, r: Single, t: Single, x: Single, y: Single)
    requires
        ascending_parts(a, b),
        ascending_parts(r, t),
        ascending_parts(x, y),
        b.clearly_above(a) || t.clearly_above(r),
    ensures
        ({
            let w = Single { bits: 0x3ef5_c28f };
            let q = Single { bits: 0x3ea3_d70a };
            let z = Single { bits: 0x3e4c_cccd };
            let low = sum(sum(product(a, w), product(r, q)), product(x, z));
            let high = sum(sum(product(b, w), product(t, q)), product(y, z));
            &&& low.nonnegative()
            &&& high.nonnegative()
            &&& low.order() < high.order()
        }),
{
    let w = Single { bits: 0x3ef5_c28f };
    let q = Single { bits: 0x3ea3_d70a };
    let z = Single { bits: 0x3e4c_cccd };
    scale_of_weights();
    product_in_units(a, b, w);
    product_in_units(r, t, q);
    product_in_units(x, y, z);
    let (a1, a2) = (product(a, w), product(b, w));
    let (c1, c2) = (product(r, q), product(t, q));
    let (d1, d2) = (product(x, z), product(y, z));
    sums_in_units_total(a1, a2, c1, c2, d1, d2);
    more_units_are_larger(sum(sum(a1, c1), d1), sum(sum(a2, c2), d2));
}

/// Three numbers against three others that are ahead by enough, and all of which add up to less than
/// two.
proof fn sums_in_units_total(
    p1: Single,
    p2: Single,
    c1: Single,
    c2: Single,
    d1: Single,
    d2: Single,
)
    requires
        p1.nonnegative(),
        p2.nonnegative(),
        c1.nonnegative(),
        c2.nonnegative(),
        d1.nonnegative(),
        d2.nonnegative(),
        !p1.infinite(),
        !p2.infinite(),
        !c1.infinite(),
        !c2.infinite(),
        !d1.infinite(),
        !d2.infinite(),
        0 <= d1.units() <= d2.units(),
        c1.units() <= c2.units(),
        p2.units() + c2.units() - p1.units() - c1.units() >= 1000 * doubled(1, 123),
        p2.units() + c2.units() + d2.units() <= 0x600_0000 * doubled(1, 123),
    ensures
        sum(sum(p1, c1), d1).nonnegative(),
        sum(sum(p2, c2), d2).nonnegative(),
        !sum(sum(p1, c1), d1).infinite(),
        sum(sum(p1, c1), d1).units() < sum(sum(p2, c2), d2).units(),
{
    scale_of_weights();
    sums_in_units(p1, p2, c1, c2);
    sums_in_units(sum(p1, c1), sum(p2, c2), d1, d2);
}

proof fn first_position()
    ensures
        position_part(0) == (Single { bits: ONE_BITS }),
{
    let one = Single { bits: ONE_BITS };
    let none = Single { bits: 0 };
    let step = Single { bits: POSITION_STEP };
    assert(of_count(0) == none);
    product_grows(none, none, step);
    assert(product(none, step) == none) by {
        assert(0 * step.significand() == 0) by (nonlinear_arith);
    }
    sum_is_kept(one);
    quotient_of_equals(one);
}

/// The weights of a recall as multiples of one power of two.
proof fn scale_of_weights()
    ensures
        ({
            let u = doubled(1, 123);
            &&& u >= 1
            &&& doubled(1, 126) == 8 * u
            &&& doubled(1, 133) == 1024 * u
            &&& doubled(1, 150) == 0x800_0000 * u
            &&& (Single { bits: 0x3e99_999a }).units() == 0x133_3334 * u
            &&& (Single { bits: 0x3eb3_3333 }).units() == 0x166_6666 * u
            &&& (Single { bits: 0x3e4c_cccd }).units() == 0xcc_cccd * u
            &&& (Single { bits: 0x3e19_999a }).units() == 0x99_999a * u
            &&& (Single { bits: 0x3ef5_c28f }).units() == 0x1eb_851e * u
            &&& (Single { bits: 0x3ea3_d70a }).units() == 0x147_ae14 * u
        }),
{
    let u = doubled(1, 123);
    powers_from(123, 1);
    powers_from(123, 3);
    powers_from(123, 10);
    powers_from(123, 27);
    assert(doubled(1, 1) == 2 && doubled(1, 3) == 8 && doubled(1, 10) == 1024 && doubled(1, 27)
        == 0x800_0000) by {
        reveal_with_fuel(doubled, 28);
    }
    assert(u * 2 == 2 * u && u * 8 == 8 * u && u * 1024 == 1024 * u && u * 0x800_0000
        == 0x800_0000 * u);
    weight_units(Single { bits: 0x3e99_999a }, 0x99_999a, 124);
    weight_units(Single { bits: 0x3eb3_3333 }, 0xb3_3333, 124);
    weight_units(Single { bits: 0x3e4c_cccd }, 0xcc_cccd, 123);
    weight_units(Single { bits: 0x3e19_999a }, 0x99_999a, 123);
    weight_units(Single { bits: 0x3ef5_c28f }, 0xf5_c28f, 124);
    weight_units(Single { bits: 0x3ea3_d70a }, 0xa3_d70a, 124);
}

/// A query may see a memory exactly where it is active, belongs to the workspace or to the whole
/// namespace, is valid at the time, and its sensitivity is permitted.
pub proof fn queries_admit_what_is_live_and_permitted(query: RecallQuery, m: MemoryModel, now: i64)
    ensures
        query.admits(m, now) <==> {
            &&& m.status == MemoryStatus::Active
            &&& m.namespace == query.namespace@
            &&& m.workspace_id == query.workspace_id@ || m.scope == MemoryScope::Global
            &&& m.valid_from <= now
            &&& m.valid_until is None || now < m.valid_until->Some_0
            &&& m.sensitivity != Sensitivity::Ephemeral
            &&& m.sensitivity == Sensitivity::Private ==> query.allow_private
            &&& m.sensitivity == Sensitivity::Secret ==> query.allow_secret
        },
{
}

/// Bringing a number into a range changes it only where it lies outside, and moves it no further than
/// the nearer end.
pub proof fn ranges_are_kept(n: int, low: int, high: int)
    requires
        low <= high,
    ensures
        low <= within(n, low, high) <= high,
        low <= n <= high ==> within(n, low, high) == n,
        n < low ==> within(n, low, high) == low,
        n > high ==> within(n, low, high) == high,
{
}

/// A recall returns between one and fifty memories and looks at twelve times as many candidates,
/// between 64 and 256 of them. A search for merge candidates returns between one and thirty-two and
/// looks at eight times as many, between 32 and 128. Other searches return between one and fifty.
pub proof fn limits_are_kept(limit: usize, r: usize)
    ensures
        call_ensures(recall_limit, (limit,), r) ==> 1 <= r <= 50 && (1 <= limit <= 50 ==> r
            == limit) && (limit > 50 ==> r == 50),
        call_ensures(recall_cap, (limit,), r) ==> 64 <= r <= 256 && (6 <= limit <= 21 ==> r == 12
            * limit) && (limit < 6 ==> r == 64) && (limit > 21 ==> r == 256),
        call_ensures(merge_limit, (limit,), r) ==> 1 <= r <= 32 && (1 <= limit <= 32 ==> r
            == limit) && (limit > 32 ==> r == 32),
        call_ensures(merge_cap, (limit,), r) ==> 32 <= r <= 128 && (4 <= limit <= 16 ==> r == 8
            * limit) && (limit < 4 ==> r == 32) && (limit > 16 ==> r == 128),
        call_ensures(search_limit, (limit,), r) ==> 1 <= r <= 50 && (1 <= limit <= 50 ==> r
            == limit) && (limit > 50 ==> r == 50),
{
}

/// Every stretch of two or more letters, digits, underscores and hyphens is looked for, between
/// quotes, where there are no more than sixteen stretches; and never more than sixteen are.
pub proof fn searches_look_for_every_term(s: Seq<char>, i: int, j: int)
    requires
        is_stretch(s, CharClass::Term, i, j),
        j - i >= 2,
        forall|k: int| i <= k < j ==> !white_space(#[trigger] s[k]) && s[k] != '"',
        runs(s, CharClass::Term).len() <= 16,
    ensures
        sorted_values(quoted_terms(s)).contains(seq!['"'] + s.subrange(i, j) + seq!['"']),
{
    let w = s.subrange(i, j);
    let pieces = runs(s, CharClass::Term);
    let f = |p: Seq<char>| trimmed(p);
    let long = |p: Seq<char>| p.len() >= 2;
    stretches_are_runs(s, CharClass::Term, i, j);
    let k = choose|k: int| 0 <= k < pieces.len() && pieces[k] == w;
    assert(w[0] == s[i] && w.last() == s[j - 1]);
    trimming_keeps_inner_text(w);
    let mapped = pieces.map_values(f);
    assert(mapped[k] == w);
    assert(mapped.contains(w));
    filter_values(mapped, long, w);
    mapped.lemma_filter_len(long);
    assert(search_terms(s) == mapped.filter(long));
    assert forall|k: int| 0 <= k < w.len() implies #[trigger] w[k] != '"' by {
        assert(w[k] == s[i + k]);
    }
    unquoted_keeps(w);
    terms_are_listed(s, w);
}

proof fn terms_are_listed(s: Seq<char>, w: Seq<char>)
    requires
        search_terms(s).contains(w),
    ensures
        sorted_values(quoted_terms(s)).contains(quoted(w)),
{
    let m = choose|m: int| 0 <= m < search_terms(s).len() && search_terms(s)[m] == w;
    assert(quoted_terms(s)[m] == quoted(w));
    assert(quoted_terms(s).contains(quoted(w)));
    sorted_values_exist(quoted_terms(s));
}

proof fn unquoted_keeps(s: Seq<char>)
    requires
        forall|k: int| 0 <= k < s.len() ==> #[trigger] s[k] != '"',
    ensures
        unquoted(s) == s,
    decreases s.len(),
{
    reveal(Seq::filter);
    if s.len() > 0 {
        assert(s.last() == s[s.len() - 1]);
        unquoted_keeps(s.drop_last());
        assert(s.drop_last().push(s.last()) =~= s);
    }
}

/// A full-text query joins sixteen quoted terms at most, each once and in ascending order, by the word
/// OR; each is a piece of the text of two characters or more, less its quotes.
pub proof fn searches_join_quoted_terms(s: Seq<char>)
    ensures
        match_expression(s) == joined(sorted_values(quoted_terms(s)), " OR "@),
        strictly_ascending(sorted_values(quoted_terms(s))),
        search_terms(s).len() <= 16,
        forall|t: Seq<char>| #[trigger]
            sorted_values(quoted_terms(s)).contains(t) ==> exists|k: int|
                0 <= k < search_terms(s).len() && t == quoted(#[trigger] search_terms(s)[k]),
        forall|k: int| 0 <= k < search_terms(s).len() ==> (#[trigger] search_terms(s)[k]).len() >= 2,
{
    let given = quoted_terms(s);
    sorted_values_exist(given);
    assert forall|t: Seq<char>| #[trigger] sorted_values(given).contains(t) implies exists|k: int|
        0 <= k < search_terms(s).len() && t == quoted(#[trigger] search_terms(s)[k]) by {
        assert(given.contains(t));
        let k = choose|k: int| 0 <= k < given.len() && given[k] == t;
        assert(t == quoted(search_terms(s)[k]));
    }
    let pieces = runs(s, CharClass::Term).map_values(|p: Seq<char>| trimmed(p));
    let long = |p: Seq<char>| p.len() >= 2;
    assert forall|k: int| 0 <= k < search_terms(s).len() implies (
    #[trigger] search_terms(s)[k]).len() >= 2 by {
        pieces.lemma_filter_pred(long, k);
    }
}

/// Everything that matched and may be seen is a candidate, in the order in which it matched, and comes
/// before whatever is added to fill up; what is added are salient memories that did not match.
pub proof fn matches_come_first(
    matches: Seq<MemoryModel>,
    salient: Seq<MemoryModel>,
    query: RecallQuery,
    now: i64,
    cap: nat,
)
    ensures
        ({
            let c = candidates(matches, salient, &query, now, cap);
            let found = matches.filter(|m: MemoryModel| query.admits(m, now));
            &&& found.len() <= c.len()
            &&& c.take(found.len() as int) == found
            &&& forall|i: int|
                found.len() <= i < c.len() ==> salient.contains(#[trigger] c[i]) && !lists_id(
                    found,
                    c[i].id,
                )
        }),
{
    let ns = query.namespace@;
    let ws = query.workspace_id@;
    let live = |m: MemoryModel| m.live(ns, ws, now);
    let ok = |m: MemoryModel| readable(m.sensitivity, query.allow_private, query.allow_secret);
    let both = |m: MemoryModel| query.admits(m, now);
    let rows = live_rows(matches, ns, ws, now);
    let more = live_rows(salient, ns, ws, now);
    let extra = filled_up_adds(rows, more, cap);
    let found = matches.filter(both);
    filters_follow(matches, live, ok, both);
    assert(rows.filter(ok) == found);
    filter_of_sum(rows, extra, ok);
    let c = candidates(matches, salient, &query, now, cap);
    assert(c == found + extra.filter(ok));
    assert(c.take(found.len() as int) =~= found);
    assert forall|i: int| found.len() <= i < c.len() implies salient.contains(#[trigger] c[i])
        && !lists_id(found, c[i].id) by {
        let v = c[i];
        assert(extra.filter(ok)[i - found.len()] == v);
        assert(extra.filter(ok).contains(v));
        filter_values(extra, ok, v);
        let k = choose|k: int| 0 <= k < extra.len() && extra[k] == v;
        assert(more.contains(extra[k]));
        filter_values(salient, live, v);
        if lists_id(found, v.id) {
            let n = choose|n: int| 0 <= n < found.len() && #[trigger] found[n].id == v.id;
            assert(rows.filter(ok).contains(found[n]));
            filter_values(rows, ok, found[n]);
            let h = choose|h: int| 0 <= h < rows.len() && rows[h] == found[n];
            assert(rows[h].id == v.id);
            assert(lists_id(rows, extra[k].id));
        }
    }
}

/// What filling up appends: rows of `more` that were not listed.
proof fn filled_up_adds(rows: Seq<MemoryModel>, more: Seq<MemoryModel>, cap: nat) -> (extra: Seq<
    MemoryModel,
>)
    ensures
        filled_up(rows, more, cap) == rows + extra,
        forall|k: int|
            0 <= k < extra.len() ==> more.contains(#[trigger] extra[k]) && !lists_id(
                rows,
                extra[k].id,
            ),
    decreases more.len(),
{
    if more.len() == 0 || rows.len() >= cap {
        assert(rows + Seq::empty() =~= rows);
        Seq::empty()
    } else {
        let rest = more.skip(1);
        if lists_id(rows, more[0].id) {
            let extra = filled_up_adds(rows, rest, cap);
            assert forall|k: int| 0 <= k < extra.len() implies more.contains(#[trigger] extra[k])
                && !lists_id(rows, extra[k].id) by {
                let j = choose|j: int| 0 <= j < rest.len() && rest[j] == extra[k];
                assert(more[j + 1] == extra[k]);
            }
            extra
        } else {
            let longer = rows.push(more[0]);
            let tail = filled_up_adds(longer, rest, cap);
            let extra = seq![more[0]] + tail;
            assert(rows + extra =~= longer + tail);
            assert forall|k: int| 0 <= k < extra.len() implies more.contains(#[trigger] extra[k])
                && !lists_id(rows, extra[k].id) by {
                if k > 0 {
                    assert(extra[k] == tail[k - 1]);
                    let j = choose|j: int| 0 <= j < rest.len() && rest[j] == tail[k - 1];
                    assert(more[j + 1] == extra[k]);
                    if lists_id(rows, extra[k].id) {
                        let h = choose|h: int|
                            0 <= h < rows.len() && #[trigger] rows[h].id == extra[k].id;
                        assert(longer[h].id == extra[k].id);
                        assert(lists_id(longer, tail[k - 1].id));
                    }
                } else {
                    assert(more[0] == extra[0]);
                }
            }
            extra
        }
    }
}

proof fn filters_follow<T>(
    s: Seq<T>,
    p: spec_fn(T) -> bool,
    q: spec_fn(T) -> bool,
    both: spec_fn(T) -> bool,
)
    requires
        forall|v: T| #[trigger] both(v) <==> p(v) && q(v),
    ensures
        s.filter(p).filter(q) == s.filter(both),
    decreases s.len(),
{
    reveal(Seq::filter);
    if s.len() > 0 {
        let init = s.drop_last();
        filters_follow(init, p, q, both);
        assert(both(s.last()) <==> p(s.last()) && q(s.last()));
        assert(init.filter(p).push(s.last()).drop_last() =~= init.filter(p));
    }
}

proof fn filter_of_sum<T>(a: Seq<T>, b: Seq<T>, p: spec_fn(T) -> bool)
    ensures
        (a + b).filter(p) == a.filter(p) + b.filter(p),
    decreases b.len(),
{
    reveal(Seq::filter);
    if b.len() > 0 {
        filter_of_sum(a, b.drop_last(), p);
        assert((a + b).drop_last() =~= a + b.drop_last());
        assert((a + b).filter(p) =~= a.filter(p) + b.filter(p));
    } else {
        assert(a + b =~= a);
        assert(a.filter(p) + b.filter(p) =~= a.filter(p));
    }
}

/// As long as there is room, the most salient memories fill the list up: one that may be seen, and
/// whose identifier did not match, is left out only where the matches and the salient memories
/// listed before it are `cap` or more.
pub proof fn salient_memories_fill_up(
    matches: Seq<MemoryModel>,
    salient: Seq<MemoryModel>,
    query: RecallQuery,
    now: i64,
    cap: nat,
    k: int,
)
    requires
        distinct_ids(salient),
        0 <= k < salient.len(),
        query.admits(salient[k], now),
        !lists_id(matches, salient[k].id),
        matches.len() + k < cap,
    ensures
        candidates(matches, salient, &query, now, cap).contains(salient[k]),
{
    let ns = query.namespace@;
    let ws = query.workspace_id@;
    let m = salient[k];
    let live = |m: MemoryModel| m.live(ns, ws, now);
    let ok = |m: MemoryModel| readable(m.sensitivity, query.allow_private, query.allow_secret);
    let rows = live_rows(matches, ns, ws, now);
    let more = live_rows(salient, ns, ws, now);
    matches.lemma_filter_len(live);
    filter_distinct(salient, live);
    let n = filter_place(salient, live, k);
    if lists_id(rows, m.id) {
        let h = choose|h: int| 0 <= h < rows.len() && #[trigger] rows[h].id == m.id;
        assert(rows.contains(rows[h]));
        filter_values(matches, live, rows[h]);
        let g = choose|g: int| 0 <= g < matches.len() && matches[g] == rows[h];
        assert(matches[g].id == m.id);
    }
    filled_up_takes_early(rows, more, cap, n);
    filter_values(filled_up(rows, more, cap), ok, m);
}

/// An item that a filter keeps stands no later than before.
proof fn filter_place<T>(s: Seq<T>, p: spec_fn(T) -> bool, k: int) -> (n: int)
    requires
        0 <= k < s.len(),
        p(s[k]),
    ensures
        0 <= n <= k,
        n < s.filter(p).len(),
        s.filter(p)[n] == s[k],
    decreases s.len(),
{
    reveal(Seq::filter);
    let init = s.drop_last();
    if k < s.len() - 1 {
        filter_place(init, p, k)
    } else {
        init.lemma_filter_len(p);
        init.filter(p).len() as int
    }
}

proof fn filled_up_takes_early(
    rows: Seq<MemoryModel>,
    more: Seq<MemoryModel>,
    cap: nat,
    n: int,
)
    requires
        distinct_ids(more),
        0 <= n < more.len(),
        !lists_id(rows, more[n].id),
        rows.len() + n < cap,
    ensures
        filled_up(rows, more, cap).contains(more[n]),
    decreases more.len(),
{
    let rest = more.skip(1);
    assert(distinct_ids(rest)) by {
        assert forall|i: int, j: int|
            0 <= i < rest.len() && 0 <= j < rest.len() && i != j implies #[trigger] rest[i].id
            != #[trigger] rest[j].id by {
            assert(more[i + 1].id != more[j + 1].id);
        }
    }
    if n == 0 {
        let longer = rows.push(more[0]);
        let extra = filled_up_adds(longer, rest, cap);
        assert((longer + extra)[rows.len() as int] == more[0]);
    } else {
        assert(rest[n - 1] == more[n]);
        if lists_id(rows, more[0].id) {
            filled_up_takes_early(rows, rest, cap, n - 1);
        } else {
            let longer = rows.push(more[0]);
            if lists_id(longer, more[n].id) {
                let h = choose|h: int| 0 <= h < longer.len() && #[trigger] longer[h].id == more[n].id;
                if h < rows.len() {
                    assert(rows[h].id == more[n].id);
                } else {
                    assert(more[0].id == more[n].id);
                }
            }
            filled_up_takes_early(longer, rest, cap, n - 1);
        }
    }
}

/// Of two candidates the one with the higher score is returned first, of two with the same score the
/// one with the smaller identifier: where the other one is returned, so is it, and before it.
pub proof fn higher_scores_are_returned_first(
    items: Seq<ScoredMemory>,
    limit: usize,
    a: int,
    b: int,
    j: int,
) -> (i: int)
    requires
        items.len() <= usize::MAX,
        told_apart(items),
        0 <= a < items.len(),
        0 <= b < items.len(),
        items[a].score.total() > items[b].score.total() || (items[a].score == items[b].score
            && text_less(items[a].memory@.id, items[b].memory@.id)),
        0 <= j < recalled(items, limit).len(),
        recalled(items, limit)[j]@.id == items[b].memory@.id,
    ensures
        0 <= i < j,
        recalled(items, limit)[i] == items[a].memory,
{
    let place = |s: ScoredMemory| rank_place(s.score, s.memory@.id);
    let all = ranked(items);
    arranged_facts(items, recall_places(items), place);
    assert(items.contains(items[a]));
    assert(all.contains(items[a]));
    let i = choose|i: int| 0 <= i < all.len() && all[i] == items[a];
    assert(all.contains(all[j]));
    let k = choose|k: int| 0 <= k < items.len() && items[k] == all[j];
    assert(recalled(items, limit)[j] == all[j].memory);
    assert(items[k].memory@.id == items[b].memory@.id);
    assert(k == b);
    assert(place(items[a]).less(place(items[b])));
    place_order(place(items[a]), place(items[b]), place(items[a]));
    if j < i {
        assert(!place(all[i]).less(place(all[j])));
    }
    assert(recalled(items, limit)[i] == all[i].memory);
    i
}

/// A recall that ranks its candidates returns each one's own memory: the scores belong to the
/// candidates in the order in which they were found.
pub proof fn scores_belong_to_their_candidates(
    text: Seq<char>,
    items: Seq<UsedMemory>,
    scores: Seq<SemanticScore>,
    now: i64,
    i: int,
)
    requires
        0 <= i < items.len(),
    ensures
        scored_for_recall(text, items, scores, now).len() == items.len(),
        scored_for_recall(text, items, scores, now)[i].memory == items[i].memory,
        scored_for_recall(text, items, scores, now)[i].score == recall_worth(
            text,
            items[i].memory@,
            i,
            scores,
            now,
            items[i].use_log,
        ),
{
}

/// Merge candidates are reported with the highest score first, equal scores by identifier, and as
/// many of them as are not distinct, up to a limit between one and thirty-two.
pub proof fn reports_are_ordered(items: Seq<MergeCandidate>, limit: usize, i: int, j: int)
    requires
        items.len() <= usize::MAX,
        0 <= i < j < reported(items, limit).len(),
    ensures
        reported(items, limit)[i].assessment.score.total() >= reported(
            items,
            limit,
        )[j].assessment.score.total(),
        reported(items, limit)[i].assessment.score == reported(items, limit)[j].assessment.score
            ==> !text_less(
            reported(items, limit)[j].memory@.id,
            reported(items, limit)[i].memory@.id,
        ),
{
    let p = |c: MergeCandidate| c.assessment.disposition != MergeDisposition::Distinct;
    let place = |c: MergeCandidate| rank_place(c.assessment.score, c.memory@.id);
    let kept = mergeable(items);
    let sorted = arranged(kept, merge_places(kept));
    items.lemma_filter_len(p);
    arranged_facts(kept, merge_places(kept), place);
    assert(!place(sorted[j]).less(place(sorted[i])));
}

/// As many merge candidates are reported as there are that are not distinct, up to the limit.
pub proof fn reports_are_complete(items: Seq<MergeCandidate>, limit: usize)
    requires
        items.len() <= usize::MAX,
    ensures
        ({
            let n = items.filter(
                |c: MergeCandidate| c.assessment.disposition != MergeDisposition::Distinct,
            ).len();
            &&& n <= 1 ==> reported(items, limit).len() == n
            &&& 1 <= limit <= 32 ==> reported(items, limit).len() == (if n < limit {
                n as int
            } else {
                limit as int
            })
            &&& limit > 32 ==> reported(items, limit).len() == (if n < 32 {
                n as int
            } else {
                32
            })
            &&& limit == 0 && n > 0 ==> reported(items, limit).len() == 1
        }),
{
    let p = |c: MergeCandidate| c.assessment.disposition != MergeDisposition::Distinct;
    items.lemma_filter_len(p);
    arranged_facts(
        mergeable(items),
        merge_places(mergeable(items)),
        |c: MergeCandidate| rank_place(c.assessment.score, c.memory@.id),
    );
}

/// Salient memories come pinned ones first, then the more important, then those changed last; only
/// live ones, each one of the rows, and as many as there are up to `cap`.
pub proof fn salient_rows_are_ordered(
    rows: Seq<MemoryModel>,
    namespace: Seq<char>,
    workspace_id: Seq<char>,
    now: i64,
    cap: int,
    i: int,
    j: int,
)
    requires
        rows.len() <= usize::MAX,
        cap >= 0,
        0 <= i < j < salient(rows, namespace, workspace_id, now, cap).len(),
    ensures
        ({
            let all = salient(rows, namespace, workspace_id, now, cap);
            &&& rows.contains(all[i]) && all[i].live(namespace, workspace_id, now)
            &&& all[j].pinned ==> all[i].pinned
            &&& all[i].pinned == all[j].pinned ==> all[i].importance.order()
                >= all[j].importance.order()
            &&& all[i].pinned == all[j].pinned && all[i].importance.order()
                == all[j].importance.order() ==> all[i].updated_at >= all[j].updated_at
        }),
{
    let p = |m: MemoryModel| m.live(namespace, workspace_id, now);
    let live = live_rows(rows, namespace, workspace_id, now);
    rows.lemma_filter_len(p);
    arranged_facts(live, salience_places(live), |m: MemoryModel| salience(m));
    let all = by_salience(live);
    assert(all.contains(all[i]));
    filter_values(rows, p, all[i]);
    assert(!salience(all[j]).less(salience(all[i])));
}

/// Scores are used where a reranker gave them, and only there.
pub proof fn only_given_scores_are_used(answer: Option<Result<Vec<SemanticScore>>>)
    ensures
        answer is None ==> usable_scores(answer).len() == 0,
        answer matches Some(Err(_)) ==> usable_scores(answer).len() == 0,
        answer matches Some(Ok(scores)) ==> usable_scores(answer) == scores@,
{
}

/// Looking for memories to merge with searches the new memory's own workspace for its own text and
/// may see every stored level of sensitivity.
pub proof fn merging_looks_around_the_new_memory(
    memory: NewMemory,
    limit: usize,
    r: RecallQuery,
    m: MemoryModel,
    now: i64,
)
    requires
        call_ensures(merge_query, (&memory, limit), r),
    ensures
        r.text@ == memory.content@,
        1 <= r.limit <= 32,
        r.admits(m, now) <==> {
            &&& m.status == MemoryStatus::Active
            &&& m.namespace == memory.namespace@
            &&& m.workspace_id == memory.workspace_id@ || m.scope == MemoryScope::Global
            &&& m.valid_from <= now
            &&& m.valid_until is None || now < m.valid_until->Some_0
            &&& m.sensitivity != Sensitivity::Ephemeral
        },
{
}

} // verus!
