use vstd::prelude::*;

use crate::knowledge::{edge_models, EdgeModel, KnowledgeEdge};
use crate::recall::top;
use crate::text::{contains_text, first_occurrences, first_occurrences_facts, same_text, texts};

verus! {

/// The list, with those ends of the links appended that are not listed yet and whose other end
/// stands between `from` and `to`.
pub open spec fn with_neighbors(
    list: Seq<Seq<char>>,
    from: int,
    to: int,
    edges: Seq<EdgeModel>,
) -> Seq<Seq<char>>
    decreases edges.len(),
{
    if edges.len() == 0 {
        list
    } else {
        let before = with_neighbors(list, from, to, edges.drop_last());
        let e = edges.last();
        if list.subrange(from, to).contains(e.source_id) && !before.contains(e.target_id) {
            before.push(e.target_id)
        } else if list.subrange(from, to).contains(e.target_id) && !before.contains(e.source_id) {
            before.push(e.source_id)
        } else {
            before
        }
    }
}

/// The list after so many more hops along the links, where all up to `from` has been followed.
pub open spec fn grown(
    list: Seq<Seq<char>>,
    from: int,
    edges: Seq<EdgeModel>,
    hops: nat,
) -> Seq<Seq<char>>
    decreases hops,
{
    if hops == 0 || from >= list.len() {
        list
    } else {
        grown(
            with_neighbors(list, from, list.len() as int, edges),
            list.len() as int,
            edges,
            (hops - 1) as nat,
        )
    }
}

/// The concepts that can be reached from the seeds in so many hops, nearest first.
pub open spec fn expanded(
    seeds: Seq<Seq<char>>,
    edges: Seq<EdgeModel>,
    hops: nat,
) -> Seq<Seq<char>> {
    grown(first_occurrences(seeds), 0, edges, hops)
}

/// Whether the concept is a seed or linked, in either direction, to one that can be reached in
/// one hop less.
pub open spec fn within_hops(
    seeds: Seq<Seq<char>>,
    edges: Seq<EdgeModel>,
    id: Seq<char>,
    hops: nat,
) -> bool
    decreases hops,
{
    if hops == 0 {
        seeds.contains(id)
    } else {
        within_hops(seeds, edges, id, (hops - 1) as nat) || exists|k: int|
            0 <= k < edges.len() && (((#[trigger] edges[k]).source_id == id && within_hops(
                seeds,
                edges,
                edges[k].target_id,
                (hops - 1) as nat,
            )) || (edges[k].target_id == id && within_hops(
                seeds,
                edges,
                edges[k].source_id,
                (hops - 1) as nat,
            )))
    }
}

/// Whether the first list is the beginning of the second.
pub open spec fn begins(short: Seq<Seq<char>>, long: Seq<Seq<char>>) -> bool {
    short.len() <= long.len() && long.take(short.len() as int) == short
}

proof fn begins_transitive(a: Seq<Seq<char>>, b: Seq<Seq<char>>, c: Seq<Seq<char>>)
    requires
        begins(a, b),
        begins(b, c),
    ensures
        begins(a, c),
{
    assert(c.take(a.len() as int) =~= b.take(a.len() as int)) by {
        assert forall|i: int| 0 <= i < a.len() implies c[i] == b[i] by {
            assert(c.take(b.len() as int)[i] == b[i]);
        }
    }
}

proof fn neighbors_append(
    list: Seq<Seq<char>>,
    from: int,
    to: int,
    edges: Seq<EdgeModel>,
    n: int,
)
    requires
        0 <= n <= edges.len(),
    ensures
        begins(list, with_neighbors(list, from, to, edges)),
        begins(
            with_neighbors(list, from, to, edges.take(n)),
            with_neighbors(list, from, to, edges),
        ),
    decreases edges.len(),
{
    let all = with_neighbors(list, from, to, edges);
    if edges.len() == 0 {
        assert(edges.take(n) =~= edges);
        assert(all.take(all.len() as int) =~= all);
    } else {
        let init = edges.drop_last();
        let before = with_neighbors(list, from, to, init);
        assert(begins(before, all)) by {
            assert(all.take(before.len() as int) =~= before);
        }
        if n == edges.len() {
            assert(edges.take(n) =~= edges);
            assert(all.take(all.len() as int) =~= all);
            neighbors_append(list, from, to, init, 0);
        } else {
            neighbors_append(list, from, to, init, n);
            assert(init.take(n) =~= edges.take(n));
            begins_transitive(with_neighbors(list, from, to, edges.take(n)), before, all);
        }
        begins_transitive(list, before, all);
    }
}

proof fn grown_appends(list: Seq<Seq<char>>, from: int, edges: Seq<EdgeModel>, hops: nat)
    ensures
        begins(list, grown(list, from, edges, hops)),
    decreases hops,
{
    if hops == 0 || from >= list.len() {
        assert(list.take(list.len() as int) =~= list);
    } else {
        let next = with_neighbors(list, from, list.len() as int, edges);
        neighbors_append(list, from, list.len() as int, edges, 0);
        grown_appends(next, list.len() as int, edges, (hops - 1) as nat);
        begins_transitive(
            list,
            next,
            grown(next, list.len() as int, edges, (hops - 1) as nat),
        );
    }
}

fn contains_between(list: &Vec<String>, from: usize, to: usize, s: &str) -> (r: bool)
    requires
        from <= to <= list@.len(),
    ensures
        r == texts(list@).subrange(from as int, to as int).contains(s@),
{
    let ghost part = texts(list@).subrange(from as int, to as int);
    let mut i: usize = from;
    while i < to
        invariant
            from <= i <= to <= list@.len(),
            part == texts(list@).subrange(from as int, to as int),
            forall|j: int| 0 <= j < i - from ==> #[trigger] part[j] != s@,
        decreases to - i,
    {
        assert(part[i - from] == list@[i as int]@);
        if same_text(list[i].as_str(), s) {
            return true;
        }
        i += 1;
    }
    false
}

proof fn leading_part(short: Seq<Seq<char>>, long: Seq<Seq<char>>, limit: int)
    requires
        begins(short, long),
        0 <= limit <= short.len(),
    ensures
        top(long, limit) == short.take(limit),
{
    assert(top(long, limit) =~= long.take(limit));
    assert(long.take(limit) =~= short.take(limit)) by {
        assert forall|i: int| 0 <= i < limit implies long[i] == short[i] by {
            assert(long.take(short.len() as int)[i] == short[i]);
        }
    }
}

fn cut(list: Vec<String>, limit: usize) -> (r: Vec<String>)
    ensures
        texts(r@) == top(texts(list@), limit as int),
{
    let ghost all = texts(list@);
    let mut out = list;
    if out.len() > limit {
        out.truncate(limit);
        assert(texts(out@) =~= all.take(limit as int));
    }
    out
}

/// Follows links, in either direction, from the seeds: the concepts that can be reached in
/// `max_hops`, each once, nearest first, no more than `limit`.
pub fn expand_neighborhood(
    seeds: &Vec<String>,
    edges: &Vec<KnowledgeEdge>,
    max_hops: usize,
    limit: usize,
) -> (r: Vec<String>)
    ensures
        texts(r@) == top(
            expanded(texts(seeds@), edge_models(edges@), max_hops as nat),
            limit as int,
        ),
{
    let ghost start = texts(seeds@);
    let ghost links = edge_models(edges@);
    let ghost goal = expanded(start, links, max_hops as nat);
    let mut list: Vec<String> = Vec::new();
    let mut s: usize = 0;
    while s < seeds.len()
        invariant
            s <= seeds@.len(),
            start == texts(seeds@),
            texts(list@) == first_occurrences(start.take(s as int)),
        decreases seeds@.len() - s,
    {
        proof {
            assert(start.take(s + 1).drop_last() =~= start.take(s as int));
            first_occurrences_facts(start.take(s as int));
        }
        if !contains_text(&list, seeds[s].as_str()) {
            let ghost before = texts(list@);
            list.push(seeds[s].clone());
            assert(texts(list@) =~= before.push(start[s as int]));
        }
        s += 1;
    }
    assert(start.take(start.len() as int) =~= start);
    let mut from: usize = 0;
    let mut hops: usize = max_hops;
    while hops > 0 && from < list.len()
        invariant
            from <= list@.len(),
            links == edge_models(edges@),
            start == texts(seeds@),
            goal == expanded(start, links, max_hops as nat),
            goal == grown(texts(list@), from as int, links, hops as nat),
        decreases hops,
    {
        let to: usize = list.len();
        let ghost base = texts(list@);
        let ghost next = with_neighbors(base, from as int, to as int, links);
        let mut k: usize = 0;
        assert(base =~= with_neighbors(base, from as int, to as int, links.take(0)));
        assert(base.take(base.len() as int) =~= base);
        while k < edges.len()
            invariant
                k <= edges@.len(),
                from < to <= list@.len(),
                to == base.len(),
                hops > 0,
                links == edge_models(edges@),
                start == texts(seeds@),
                goal == expanded(start, links, max_hops as nat),
                goal == grown(base, from as int, links, hops as nat),
                next == with_neighbors(base, from as int, to as int, links),
                texts(list@) == with_neighbors(base, from as int, to as int, links.take(k as int)),
                begins(base, texts(list@)),
            decreases edges@.len() - k,
        {
            proof {
                assert(links.take(k + 1).drop_last() =~= links.take(k as int));
                assert(links.take(k + 1).last() == edges@[k as int]@);
                assert(texts(list@).subrange(from as int, to as int) =~= base.subrange(
                    from as int,
                    to as int,
                )) by {
                    assert forall|i: int| from <= i < to implies texts(list@)[i] == base[i] by {
                        assert(texts(list@).take(base.len() as int)[i] == base[i]);
                    }
                }
            }
            let ghost before = texts(list@);
            let edge = &edges[k];
            if contains_between(&list, from, to, edge.source_id.as_str()) && !contains_text(
                &list,
                edge.target_id.as_str(),
            ) {
                list.push(edge.target_id.clone());
                assert(texts(list@) =~= before.push(edge@.target_id));
            } else if contains_between(&list, from, to, edge.target_id.as_str())
                && !contains_text(&list, edge.source_id.as_str()) {
                list.push(edge.source_id.clone());
                assert(texts(list@) =~= before.push(edge@.source_id));
            }
            k += 1;
            proof {
                neighbors_append(base, from as int, to as int, links.take(k as int), 0);
            }
            if list.len() >= limit {
                proof {
                    let partial = texts(list@);
                    neighbors_append(base, from as int, to as int, links, k as int);
                    grown_appends(next, to as int, links, (hops - 1) as nat);
                    begins_transitive(partial, next, goal);
                    leading_part(partial, goal, limit as int);
                    assert(top(partial, limit as int) =~= partial.take(limit as int));
                }
                return cut(list, limit);
            }
        }
        assert(links.take(links.len() as int) =~= links);
        from = to;
        hops -= 1;
    }
    cut(list, limit)
}

proof fn neighbors_facts(
    list: Seq<Seq<char>>,
    from: int,
    to: int,
    edges: Seq<EdgeModel>,
    v: Seq<char>,
)
    requires
        0 <= from <= to <= list.len(),
    ensures
        with_neighbors(list, from, to, edges).contains(v) <==> list.contains(v) || exists|k: int|
            0 <= k < edges.len() && (((#[trigger] edges[k]).source_id == v && list.subrange(
                from,
                to,
            ).contains(edges[k].target_id)) || (edges[k].target_id == v && list.subrange(
                from,
                to,
            ).contains(edges[k].source_id))),
    decreases edges.len(),
{
    if edges.len() > 0 {
        let init = edges.drop_last();
        let e = edges.last();
        let before = with_neighbors(list, from, to, init);
        let after = with_neighbors(list, from, to, edges);
        let part = list.subrange(from, to);
        neighbors_facts(list, from, to, init, v);
        neighbors_append(list, from, to, init, 0);
        assert(forall|x: Seq<char>| part.contains(x) ==> before.contains(x)) by {
            assert forall|x: Seq<char>| part.contains(x) implies before.contains(x) by {
                let i = choose|i: int| 0 <= i < part.len() && part[i] == x;
                assert(before.take(list.len() as int)[from + i] == list[from + i]);
                assert(before[from + i] == x);
            }
        }
        assert(after.contains(v) <==> before.contains(v) || (after.len() > before.len() && v
            == after.last())) by {
            if after.contains(v) {
                let i = choose|i: int| 0 <= i < after.len() && after[i] == v;
                if i < before.len() {
                    assert(before[i] == v);
                }
            }
            if before.contains(v) {
                let i = choose|i: int| 0 <= i < before.len() && before[i] == v;
                assert(after[i] == v);
            }
            if after.len() > before.len() && v == after.last() {
                assert(after[after.len() - 1] == v);
            }
        }
        if exists|k: int|
            0 <= k < init.len() && (((#[trigger] init[k]).source_id == v && part.contains(
                init[k].target_id,
            )) || (init[k].target_id == v && part.contains(init[k].source_id))) {
            let k = choose|k: int|
                0 <= k < init.len() && (((#[trigger] init[k]).source_id == v && part.contains(
                    init[k].target_id,
                )) || (init[k].target_id == v && part.contains(init[k].source_id)));
            assert(edges[k] == init[k]);
        }
        if exists|k: int|
            0 <= k < edges.len() && (((#[trigger] edges[k]).source_id == v && part.contains(
                edges[k].target_id,
            )) || (edges[k].target_id == v && part.contains(edges[k].source_id))) {
            let k = choose|k: int|
                0 <= k < edges.len() && (((#[trigger] edges[k]).source_id == v && part.contains(
                    edges[k].target_id,
                )) || (edges[k].target_id == v && part.contains(edges[k].source_id)));
            if k < init.len() {
                assert(init[k] == edges[k]);
            } else {
                assert(edges[k] == e);
            }
        }
        if after.len() > before.len() && v == after.last() {
            assert(edges[edges.len() - 1] == e);
        }
    }
}

/// Whether each concept that is linked to one of the first `from` is listed.
spec fn followed(list: Seq<Seq<char>>, from: int, edges: Seq<EdgeModel>) -> bool {
    forall|k: int|
        0 <= k < edges.len() ==> {
            &&& list.take(from).contains((#[trigger] edges[k]).source_id) ==> list.contains(
                edges[k].target_id,
            )
            &&& list.take(from).contains(edges[k].target_id) ==> list.contains(edges[k].source_id)
        }
}

/// Whether the list holds exactly what can be reached in so many hops.
spec fn covers(
    list: Seq<Seq<char>>,
    seeds: Seq<Seq<char>>,
    edges: Seq<EdgeModel>,
    hops: nat,
) -> bool {
    forall|v: Seq<char>| #[trigger] list.contains(v) <==> within_hops(seeds, edges, v, hops)
}

proof fn listed_before_or_after(list: Seq<Seq<char>>, from: int, v: Seq<char>)
    requires
        0 <= from <= list.len(),
    ensures
        list.contains(v) <==> list.take(from).contains(v) || list.subrange(
            from,
            list.len() as int,
        ).contains(v),
{
    let part = list.subrange(from, list.len() as int);
    if list.contains(v) {
        let i = choose|i: int| 0 <= i < list.len() && list[i] == v;
        if i < from {
            assert(list.take(from)[i] == v);
        } else {
            assert(part[i - from] == v);
        }
    }
    if list.take(from).contains(v) {
        let i = choose|i: int| 0 <= i < from && list.take(from)[i] == v;
        assert(list[i] == v);
    }
    if part.contains(v) {
        let i = choose|i: int| 0 <= i < part.len() && part[i] == v;
        assert(list[from + i] == v);
    }
}

proof fn one_hop(
    list: Seq<Seq<char>>,
    from: int,
    seeds: Seq<Seq<char>>,
    edges: Seq<EdgeModel>,
    done: nat,
)
    requires
        0 <= from <= list.len(),
        followed(list, from, edges),
        covers(list, seeds, edges, done),
    ensures
        ({
            let next = with_neighbors(list, from, list.len() as int, edges);
            &&& covers(next, seeds, edges, done + 1)
            &&& followed(next, list.len() as int, edges)
        }),
{
    let to = list.len() as int;
    let next = with_neighbors(list, from, to, edges);
    let part = list.subrange(from, to);
    neighbors_append(list, from, to, edges, 0);
    assert forall|v: Seq<char>| #[trigger] next.contains(v) <==> within_hops(
        seeds,
        edges,
        v,
        done + 1,
    ) by {
        neighbors_facts(list, from, to, edges, v);
        assert(list.contains(v) <==> within_hops(seeds, edges, v, done));
        if next.contains(v) && !list.contains(v) {
            let k = choose|k: int|
                0 <= k < edges.len() && (((#[trigger] edges[k]).source_id == v && part.contains(
                    edges[k].target_id,
                )) || (edges[k].target_id == v && part.contains(edges[k].source_id)));
            listed_before_or_after(list, from, edges[k].target_id);
            listed_before_or_after(list, from, edges[k].source_id);
            assert(list.contains(edges[k].target_id) <==> within_hops(
                seeds,
                edges,
                edges[k].target_id,
                done,
            ));
            assert(list.contains(edges[k].source_id) <==> within_hops(
                seeds,
                edges,
                edges[k].source_id,
                done,
            ));
        }
        if within_hops(seeds, edges, v, done + 1) && !list.contains(v) {
            let k = choose|k: int|
                0 <= k < edges.len() && (((#[trigger] edges[k]).source_id == v && within_hops(
                    seeds,
                    edges,
                    edges[k].target_id,
                    done,
                )) || (edges[k].target_id == v && within_hops(
                    seeds,
                    edges,
                    edges[k].source_id,
                    done,
                )));
            listed_before_or_after(list, from, edges[k].target_id);
            listed_before_or_after(list, from, edges[k].source_id);
            assert(list.contains(edges[k].target_id) <==> within_hops(
                seeds,
                edges,
                edges[k].target_id,
                done,
            ));
            assert(list.contains(edges[k].source_id) <==> within_hops(
                seeds,
                edges,
                edges[k].source_id,
                done,
            ));
        }
    }
    assert forall|k: int| 0 <= k < edges.len() implies {
        &&& next.take(to).contains((#[trigger] edges[k]).source_id) ==> next.contains(
            edges[k].target_id,
        )
        &&& next.take(to).contains(edges[k].target_id) ==> next.contains(edges[k].source_id)
    } by {
        assert(next.take(to) == list);
        neighbors_facts(list, from, to, edges, edges[k].target_id);
        neighbors_facts(list, from, to, edges, edges[k].source_id);
        listed_before_or_after(list, from, edges[k].source_id);
        listed_before_or_after(list, from, edges[k].target_id);
    }
}

/// Where all links have been followed, more hops reach nothing new.
proof fn no_further(
    list: Seq<Seq<char>>,
    seeds: Seq<Seq<char>>,
    edges: Seq<EdgeModel>,
    done: nat,
    more: nat,
)
    requires
        followed(list, list.len() as int, edges),
        covers(list, seeds, edges, done),
    ensures
        covers(list, seeds, edges, done + more),
    decreases more,
{
    if more > 0 {
        no_further(list, seeds, edges, done, (more - 1) as nat);
        let h = (done + more - 1) as nat;
        assert(list.take(list.len() as int) =~= list);
        assert forall|v: Seq<char>| #[trigger] list.contains(v) <==> within_hops(
            seeds,
            edges,
            v,
            done + more,
        ) by {
            assert(list.contains(v) <==> within_hops(seeds, edges, v, h));
            if within_hops(seeds, edges, v, done + more) && !list.contains(v) {
                let k = choose|k: int|
                    0 <= k < edges.len() && (((#[trigger] edges[k]).source_id == v && within_hops(
                        seeds,
                        edges,
                        edges[k].target_id,
                        h,
                    )) || (edges[k].target_id == v && within_hops(
                        seeds,
                        edges,
                        edges[k].source_id,
                        h,
                    )));
                assert(list.contains(edges[k].target_id) <==> within_hops(
                    seeds,
                    edges,
                    edges[k].target_id,
                    h,
                ));
                assert(list.contains(edges[k].source_id) <==> within_hops(
                    seeds,
                    edges,
                    edges[k].source_id,
                    h,
                ));
            }
        }
    }
}

proof fn grown_covers(
    list: Seq<Seq<char>>,
    from: int,
    seeds: Seq<Seq<char>>,
    edges: Seq<EdgeModel>,
    done: nat,
    hops: nat,
)
    requires
        0 <= from <= list.len(),
        followed(list, from, edges),
        covers(list, seeds, edges, done),
    ensures
        covers(grown(list, from, edges, hops), seeds, edges, done + hops),
    decreases hops,
{
    if hops > 0 {
        if from >= list.len() {
            no_further(list, seeds, edges, done, hops);
        } else {
            one_hop(list, from, seeds, edges, done);
            let next = with_neighbors(list, from, list.len() as int, edges);
            neighbors_append(list, from, list.len() as int, edges, 0);
            grown_covers(next, list.len() as int, seeds, edges, done + 1, (hops - 1) as nat);
        }
    }
}

/// The expansion holds a concept exactly when it can be reached from a seed in so many hops.
pub proof fn expansion_is_exact(
    seeds: Seq<Seq<char>>,
    edges: Seq<EdgeModel>,
    hops: nat,
    id: Seq<char>,
)
    ensures
        expanded(seeds, edges, hops).contains(id) <==> within_hops(seeds, edges, id, hops),
{
    let list = first_occurrences(seeds);
    first_occurrences_facts(seeds);
    assert(covers(list, seeds, edges, 0));
    assert(followed(list, 0, edges)) by {
        assert(list.take(0) =~= Seq::<Seq<char>>::empty());
    }
    grown_covers(list, 0, seeds, edges, 0, hops);
}

proof fn neighbors_distinct(list: Seq<Seq<char>>, from: int, to: int, edges: Seq<EdgeModel>)
    requires
        list.no_duplicates(),
    ensures
        with_neighbors(list, from, to, edges).no_duplicates(),
    decreases edges.len(),
{
    if edges.len() > 0 {
        neighbors_distinct(list, from, to, edges.drop_last());
    }
}

proof fn grown_distinct(list: Seq<Seq<char>>, from: int, edges: Seq<EdgeModel>, hops: nat)
    requires
        list.no_duplicates(),
    ensures
        grown(list, from, edges, hops).no_duplicates(),
    decreases hops,
{
    if hops > 0 && from < list.len() {
        neighbors_distinct(list, from, list.len() as int, edges);
        grown_distinct(
            with_neighbors(list, from, list.len() as int, edges),
            list.len() as int,
            edges,
            (hops - 1) as nat,
        );
    }
}

/// Cycles do no harm: the expansion lists no concept twice.
pub proof fn expansion_is_cycle_safe(seeds: Seq<Seq<char>>, edges: Seq<EdgeModel>, hops: nat)
    ensures
        expanded(seeds, edges, hops).no_duplicates(),
{
    first_occurrences_facts(seeds);
    grown_distinct(first_occurrences(seeds), 0, edges, hops);
}

proof fn grown_further(list: Seq<Seq<char>>, from: int, edges: Seq<EdgeModel>, hops: nat)
    ensures
        begins(grown(list, from, edges, hops), grown(list, from, edges, hops + 1)),
    decreases hops,
{
    if from >= list.len() {
        assert(list.take(list.len() as int) =~= list);
    } else if hops == 0 {
        grown_appends(list, from, edges, 1);
    } else {
        grown_further(
            with_neighbors(list, from, list.len() as int, edges),
            list.len() as int,
            edges,
            (hops - 1) as nat,
        );
    }
}

/// What is nearer comes first: one more hop only appends to the expansion, and all of it starts
/// with the seeds.
pub proof fn nearer_concepts_come_first(seeds: Seq<Seq<char>>, edges: Seq<EdgeModel>, hops: nat)
    ensures
        begins(expanded(seeds, edges, hops), expanded(seeds, edges, hops + 1)),
        begins(first_occurrences(seeds), expanded(seeds, edges, hops)),
{
    grown_further(first_occurrences(seeds), 0, edges, hops);
    grown_appends(first_occurrences(seeds), 0, edges, hops);
}

/// Whether some link joins the two concepts, in either direction.
pub open spec fn linked(edges: Seq<EdgeModel>, a: Seq<char>, b: Seq<char>) -> bool {
    exists|k: int|
        0 <= k < edges.len() && (((#[trigger] edges[k]).source_id == a && edges[k].target_id == b)
            || (edges[k].source_id == b && edges[k].target_id == a))
}

/// Whether the concepts, each linked to the next one, lead away from a seed.
pub open spec fn is_path(seeds: Seq<Seq<char>>, edges: Seq<EdgeModel>, path: Seq<Seq<char>>) -> bool {
    &&& path.len() > 0
    &&& seeds.contains(path[0])
    &&& forall|i: int| 0 < i < path.len() ==> linked(edges, path[i - 1], #[trigger] path[i])
}

/// Wherever a path along links leads from a seed, whatever their direction, the expansion over that
/// many hops gets there.
pub proof fn paths_are_followed(
    seeds: Seq<Seq<char>>,
    edges: Seq<EdgeModel>,
    path: Seq<Seq<char>>,
    hops: nat,
)
    requires
        is_path(seeds, edges, path),
        path.len() <= hops + 1,
    ensures
        expanded(seeds, edges, hops).contains(path.last()),
{
    path_is_within_hops(seeds, edges, path, hops);
    expansion_is_exact(seeds, edges, hops, path.last());
}

proof fn path_is_within_hops(
    seeds: Seq<Seq<char>>,
    edges: Seq<EdgeModel>,
    path: Seq<Seq<char>>,
    hops: nat,
)
    requires
        is_path(seeds, edges, path),
        path.len() <= hops + 1,
    ensures
        within_hops(seeds, edges, path.last(), hops),
    decreases hops,
{
    if hops > 0 {
        if path.len() <= hops {
            path_is_within_hops(seeds, edges, path, (hops - 1) as nat);
        } else {
            let init = path.drop_last();
            let n = path.len() - 1;
            assert forall|i: int| 0 < i < init.len() implies linked(
                edges,
                init[i - 1],
                #[trigger] init[i],
            ) by {
                assert(linked(edges, path[i - 1], path[i]));
            }
            path_is_within_hops(seeds, edges, init, (hops - 1) as nat);
            assert(linked(edges, path[n - 1], path[n]));
            assert(init.last() == path[n - 1]);
        }
    }
}

/// Whatever the expansion lists, a path along links leads there from a seed, over no more than that
/// many hops.
pub proof fn expansion_follows_paths(
    seeds: Seq<Seq<char>>,
    edges: Seq<EdgeModel>,
    hops: nat,
    id: Seq<char>,
) -> (path: Seq<Seq<char>>)
    requires
        expanded(seeds, edges, hops).contains(id),
    ensures
        is_path(seeds, edges, path),
        path.len() <= hops + 1,
        path.last() == id,
{
    expansion_is_exact(seeds, edges, hops, id);
    path_to(seeds, edges, hops, id)
}

proof fn path_to(
    seeds: Seq<Seq<char>>,
    edges: Seq<EdgeModel>,
    hops: nat,
    id: Seq<char>,
) -> (path: Seq<Seq<char>>)
    requires
        within_hops(seeds, edges, id, hops),
    ensures
        is_path(seeds, edges, path),
        path.len() <= hops + 1,
        path.last() == id,
    decreases hops,
{
    if hops == 0 {
        seq![id]
    } else {
        let less = (hops - 1) as nat;
        if within_hops(seeds, edges, id, less) {
            path_to(seeds, edges, less, id)
        } else {
            let k = choose|k: int|
                0 <= k < edges.len() && (((#[trigger] edges[k]).source_id == id && within_hops(
                    seeds,
                    edges,
                    edges[k].target_id,
                    less,
                )) || (edges[k].target_id == id && within_hops(
                    seeds,
                    edges,
                    edges[k].source_id,
                    less,
                )));
            let other = if edges[k].source_id == id && within_hops(
                seeds,
                edges,
                edges[k].target_id,
                less,
            ) {
                edges[k].target_id
            } else {
                edges[k].source_id
            };
            let before = path_to(seeds, edges, less, other);
            let path = before.push(id);
            assert(linked(edges, other, id));
            assert forall|i: int| 0 < i < path.len() implies linked(
                edges,
                path[i - 1],
                #[trigger] path[i],
            ) by {
                if i < before.len() {
                    assert(linked(edges, before[i - 1], before[i]));
                }
            }
            path
        }
    }
}

/// What is listed after an expansion: its beginning, up to the limit, and all of it where it fits.
pub proof fn expansions_are_cut_at_the_limit(
    seeds: Vec<String>,
    edges: Vec<KnowledgeEdge>,
    max_hops: usize,
    limit: usize,
    r: Vec<String>,
)
    requires
        call_ensures(expand_neighborhood, (&seeds, &edges, max_hops, limit), r),
    ensures
        begins(texts(r@), expanded(texts(seeds@), edge_models(edges@), max_hops as nat)),
        r@.len() <= limit,
        r@.len() < limit ==> texts(r@) == expanded(
            texts(seeds@),
            edge_models(edges@),
            max_hops as nat,
        ),
{
    let all = expanded(texts(seeds@), edge_models(edges@), max_hops as nat);
    assert(texts(r@).len() == r@.len());
    if all.len() <= limit {
        assert(all.take(all.len() as int) =~= all);
    }
}

/// Concepts that are reached in the same hop are listed in the order of the links that lead to them:
/// looking at one more link appends what it leads to, and nothing else.
pub proof fn later_links_list_later(
    list: Seq<Seq<char>>,
    from: int,
    to: int,
    edges: Seq<EdgeModel>,
    e: EdgeModel,
)
    requires
        0 <= from <= to <= list.len(),
    ensures
        begins(
            with_neighbors(list, from, to, edges),
            with_neighbors(list, from, to, edges.push(e)),
        ),
        with_neighbors(list, from, to, edges.push(e)).len() <= with_neighbors(
            list,
            from,
            to,
            edges,
        ).len() + 1,
{
    let more = edges.push(e);
    assert(more.drop_last() =~= edges);
    assert(more.take(edges.len() as int) =~= edges);
    neighbors_append(list, from, to, more, edges.len() as int);
}

} // verus!
