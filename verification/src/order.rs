use vstd::prelude::*;

use crate::text::{chars_of, same_text, texts};

verus! {

/// `a` stands before `b` in the order of their characters' code points.
pub open spec fn text_less(a: Seq<char>, b: Seq<char>) -> bool
    decreases a.len(),
{
    if b.len() == 0 {
        false
    } else if a.len() == 0 {
        true
    } else if a[0] != b[0] {
        a[0] < b[0]
    } else {
        text_less(a.skip(1), b.skip(1))
    }
}

/// No text stands before itself.
pub proof fn text_less_irreflexive(a: Seq<char>)
    ensures
        !text_less(a, a),
    decreases a.len(),
{
    if a.len() > 0 {
        text_less_irreflexive(a.skip(1));
    }
}

/// The order of texts is transitive.
pub proof fn text_less_transitive(a: Seq<char>, b: Seq<char>, c: Seq<char>)
    requires
        text_less(a, b),
        text_less(b, c),
    ensures
        text_less(a, c),
    decreases a.len(),
{
    if a.len() > 0 && a[0] == b[0] && b[0] == c[0] {
        text_less_transitive(a.skip(1), b.skip(1), c.skip(1));
    }
}

/// Of two different texts one stands before the other.
pub proof fn text_less_total(a: Seq<char>, b: Seq<char>)
    ensures
        a == b || text_less(a, b) || text_less(b, a),
    decreases a.len(),
{
    if a.len() > 0 && b.len() > 0 && a[0] == b[0] {
        text_less_total(a.skip(1), b.skip(1));
        if a.skip(1) == b.skip(1) {
            assert(a =~= seq![a[0]] + a.skip(1));
            assert(b =~= seq![b[0]] + b.skip(1));
        }
    } else if a.len() == 0 && b.len() == 0 {
        assert(a =~= b);
    }
}

/// What decides the place of an item: four numbers, smallest first, then a text.
#[verifier::ext_equal]
pub struct Place {
    pub first: int,
    pub second: int,
    pub third: int,
    pub fourth: int,
    pub text: Seq<char>,
}

impl Place {
    pub open spec fn less(self, other: Place) -> bool {
        if self.first != other.first {
            self.first < other.first
        } else if self.second != other.second {
            self.second < other.second
        } else if self.third != other.third {
            self.third < other.third
        } else if self.fourth != other.fourth {
            self.fourth < other.fourth
        } else {
            text_less(self.text, other.text)
        }
    }
}

/// The order of places is a strict total order.
pub proof fn place_order(a: Place, b: Place, c: Place)
    ensures
        !a.less(a),
        a.less(b) && b.less(c) ==> a.less(c),
        a == b || a.less(b) || b.less(a),
        !(a.less(b) && b.less(a)),
{
    text_less_irreflexive(a.text);
    text_less_total(a.text, b.text);
    if a.less(b) && b.less(c) && text_less(a.text, b.text) && text_less(b.text, c.text) {
        text_less_transitive(a.text, b.text, c.text);
    }
    if text_less(a.text, b.text) && text_less(b.text, a.text) {
        text_less_transitive(a.text, b.text, a.text);
    }
}

/// The sorting key of an item.
#[derive(Debug)]
pub struct SortKey {
    pub first: i64,
    pub second: i64,
    pub third: i64,
    pub fourth: i64,
    pub text: Vec<char>,
}

impl View for SortKey {
    type V = Place;

    open spec fn view(&self) -> Place {
        Place {
            first: self.first as int,
            second: self.second as int,
            third: self.third as int,
            fourth: self.fourth as int,
            text: self.text@,
        }
    }
}

/// Turns an ascending key into a descending one.
pub(crate) fn descending(key: i64) -> (r: i64)
    ensures
        r == -1 - key,
{
    -1 - key
}

fn chars_less(a: &Vec<char>, b: &Vec<char>) -> (r: bool)
    ensures
        r == text_less(a@, b@),
{
    let mut i: usize = 0;
    assert(a@.skip(0) =~= a@ && b@.skip(0) =~= b@);
    while i < a.len() && i < b.len()
        invariant
            i <= a@.len(),
            i <= b@.len(),
            text_less(a@, b@) == text_less(a@.skip(i as int), b@.skip(i as int)),
        decreases a@.len() - i,
    {
        assert(a@.skip(i as int)[0] == a@[i as int] && b@.skip(i as int)[0] == b@[i as int]);
        if a[i] != b[i] {
            return a[i] < b[i];
        }
        assert(a@.skip(i as int).skip(1) =~= a@.skip(i + 1));
        assert(b@.skip(i as int).skip(1) =~= b@.skip(i + 1));
        i += 1;
    }
    i < b.len()
}

impl SortKey {
    fn less(&self, other: &SortKey) -> (r: bool)
        ensures
            r == self@.less(other@),
    {
        if self.first != other.first {
            self.first < other.first
        } else if self.second != other.second {
            self.second < other.second
        } else if self.third != other.third {
            self.third < other.third
        } else if self.fourth != other.fourth {
            self.fourth < other.fourth
        } else {
            chars_less(&self.text, &other.text)
        }
    }
}

/// The places of a list of keys.
pub open spec fn places(keys: Seq<SortKey>) -> Seq<Place> {
    Seq::new(keys.len(), |i: int| keys[i]@)
}

/// Item `i` comes before item `j`: by its place or, at equal places, because it was listed first.
pub open spec fn comes_before(places: Seq<Place>, i: int, j: int) -> bool {
    places[i].less(places[j]) || (places[i] == places[j] && i < j)
}

/// `order` lists the positions of all items, each once, in the stable order of their places.
pub open spec fn is_stable_order(places: Seq<Place>, order: Seq<usize>) -> bool {
    &&& order.len() == places.len()
    &&& forall|k: int| 0 <= k < order.len() ==> (#[trigger] order[k]) < places.len()
    &&& forall|k: int, l: int|
        0 <= k < l < order.len() ==> comes_before(places, #[trigger] order[k] as int, #[trigger] order[l] as int)
}

/// The positions of the items in the stable order of their places.
pub open spec fn stable_positions(places: Seq<Place>) -> Seq<usize> {
    choose|order: Seq<usize>| is_stable_order(places, order)
}

/// Whether `stable_positions` lists the positions in the stable order of the places.
pub open spec fn has_stable_order(places: Seq<Place>) -> bool {
    is_stable_order(places, stable_positions(places))
}

/// The items in the stable order of their places.
pub open spec fn arranged<T>(items: Seq<T>, places: Seq<Place>) -> Seq<T> {
    Seq::new(items.len(), |k: int| items[stable_positions(places)[k] as int])
}

/// There is only one stable order.
pub proof fn stable_order_is_unique(all: Seq<Place>, a: Seq<usize>, b: Seq<usize>)
    requires
        is_stable_order(all, a),
        is_stable_order(all, b),
    ensures
        a == b,
{
    order_covers(all, a);
    order_covers(all, b);
    assert forall|k: int| 0 <= k < a.len() implies a[k] == b[k] by {
        stable_orders_agree_up_to(all, a, b, k + 1);
    }
    assert(a =~= b);
}

proof fn stable_orders_agree_up_to(all: Seq<Place>, a: Seq<usize>, b: Seq<usize>, n: int)
    requires
        is_stable_order(all, a),
        is_stable_order(all, b),
        0 <= n <= a.len(),
    ensures
        forall|k: int| 0 <= k < n ==> a[k] == b[k],
    decreases n,
{
    if n > 0 {
        let k = n - 1;
        stable_orders_agree_up_to(all, a, b, k);
        order_covers(all, a);
        order_covers(all, b);
        if a[k] != b[k] {
            assert(lists(b, a[k] as int) && lists(a, b[k] as int));
            let m = choose|m: int| 0 <= m < b.len() && #[trigger] b[m] == a[k] as int;
            let l = choose|l: int| 0 <= l < a.len() && #[trigger] a[l] == b[k] as int;
            assert(m > k) by {
                if m < k {
                    assert(a[m] == a[k]);
                }
            }
            assert(l > k) by {
                if l < k {
                    assert(b[l] == b[k]);
                }
            }
            assert(comes_before(all, b[k] as int, b[m] as int));
            assert(comes_before(all, a[k] as int, a[l] as int));
            place_order(all[a[k] as int], all[b[k] as int], all[a[k] as int]);
        }
    }
}

proof fn insertion_point(all: Seq<Place>, order: Seq<usize>, x: Place, n: int) -> (p: int)
    requires
        forall|k: int| 0 <= k < order.len() ==> (#[trigger] order[k]) < all.len(),
        forall|k: int, l: int|
            0 <= k < l < order.len() ==> comes_before(
                all,
                #[trigger] order[k] as int,
                #[trigger] order[l] as int,
            ),
        0 <= n <= order.len(),
        forall|k: int| n <= k < order.len() ==> x.less(all[#[trigger] order[k] as int]),
    ensures
        0 <= p <= order.len(),
        forall|k: int| 0 <= k < p ==> !x.less(all[#[trigger] order[k] as int]),
        forall|k: int| p <= k < order.len() ==> x.less(all[#[trigger] order[k] as int]),
    decreases n,
{
    if n == 0 {
        0
    } else if x.less(all[order[n - 1] as int]) {
        insertion_point(all, order, x, n - 1)
    } else {
        assert forall|k: int| 0 <= k < n implies !x.less(all[#[trigger] order[k] as int]) by {
            place_order(x, all[order[k] as int], all[order[n - 1] as int]);
            if k < n - 1 {
                assert(comes_before(all, order[k] as int, order[n - 1] as int));
            }
        }
        n
    }
}

/// Every list of places has a stable order.
pub proof fn stable_order_exists(all: Seq<Place>)
    requires
        all.len() <= usize::MAX,
    ensures
        is_stable_order(all, stable_positions(all)),
    decreases all.len(),
{
    if all.len() == 0 {
        assert(is_stable_order(all, Seq::<usize>::empty()));
    } else {
        let init = all.drop_last();
        stable_order_exists(init);
        let before = stable_positions(init);
        assert forall|k: int, l: int| 0 <= k < l < before.len() implies comes_before(
            all,
            #[trigger] before[k] as int,
            #[trigger] before[l] as int,
        ) by {
            assert(comes_before(init, before[k] as int, before[l] as int));
        }
        let x = all.last();
        let i = (all.len() - 1) as usize;
        let p = insertion_point(all, before, x, before.len() as int);
        let after = before.insert(p, i);
        assert forall|k: int, l: int| 0 <= k < l < after.len() implies comes_before(
            all,
            #[trigger] after[k] as int,
            #[trigger] after[l] as int,
        ) by {
            if l == p {
                assert(after[k] == before[k]);
                place_order(x, all[before[k] as int], x);
            } else if k == p {
                assert(after[l] == before[l - 1]);
            } else {
                let k0 = if k < p { k } else { k - 1 };
                let l0 = if l < p { l } else { l - 1 };
                assert(after[k] == before[k0] && after[l] == before[l0]);
            }
        }
        assert forall|k: int| 0 <= k < after.len() implies (#[trigger] after[k]) < all.len() by {
            if k < p {
                assert(after[k] == before[k]);
            } else if k > p {
                assert(after[k] == before[k - 1]);
            }
        }
        assert(is_stable_order(all, after));
    }
}

/// Sorts: the positions of the items in the stable order of their keys.
pub(crate) fn stable_order(keys: &Vec<SortKey>) -> (r: Vec<usize>)
    ensures
        is_stable_order(places(keys@), r@),
        r@ == stable_positions(places(keys@)),
{
    let mut order: Vec<usize> = Vec::new();
    let mut i: usize = 0;
    let ghost all = places(keys@);
    while i < keys.len()
        invariant
            i <= keys@.len(),
            all == places(keys@),
            order@.len() == i,
            forall|k: int| 0 <= k < order@.len() ==> (#[trigger] order@[k]) < i,
            forall|k: int, l: int|
                0 <= k < l < order@.len() ==> comes_before(
                    all,
                    #[trigger] order@[k] as int,
                    #[trigger] order@[l] as int,
                ),
        decreases keys@.len() - i,
    {
        let mut low: usize = 0;
        let mut high: usize = order.len();
        while low < high
            invariant
                i < keys@.len(),
                all == places(keys@),
                low <= high <= order@.len(),
                order@.len() == i,
                forall|k: int| 0 <= k < order@.len() ==> (#[trigger] order@[k]) < i,
                forall|k: int, l: int|
                    0 <= k < l < order@.len() ==> comes_before(
                        all,
                        #[trigger] order@[k] as int,
                        #[trigger] order@[l] as int,
                    ),
                forall|k: int| 0 <= k < low ==> !all[i as int].less(all[#[trigger] order@[k] as int]),
                forall|k: int|
                    high <= k < order@.len() ==> all[i as int].less(all[#[trigger] order@[k] as int]),
            decreases high - low,
        {
            let middle: usize = low + (high - low) / 2;
            let other: usize = order[middle];
            if keys[i].less(&keys[other]) {
                proof {
                    assert forall|k: int| middle <= k < order@.len() implies all[i as int].less(
                        all[#[trigger] order@[k] as int],
                    ) by {
                        place_order(all[i as int], all[other as int], all[order@[k] as int]);
                        if k > middle {
                            assert(comes_before(all, order@[middle as int] as int, order@[k] as int));
                        }
                    }
                }
                high = middle;
            } else {
                proof {
                    assert forall|k: int| 0 <= k < middle + 1 implies !all[i as int].less(
                        all[#[trigger] order@[k] as int],
                    ) by {
                        place_order(all[i as int], all[order@[k] as int], all[other as int]);
                        if k < middle {
                            assert(comes_before(all, order@[k] as int, order@[middle as int] as int));
                        }
                    }
                }
                low = middle + 1;
            }
        }
        let ghost before = order@;
        order.insert(low, i);
        proof {
            assert forall|k: int, l: int| 0 <= k < l < order@.len() implies comes_before(
                all,
                #[trigger] order@[k] as int,
                #[trigger] order@[l] as int,
            ) by {
                if l == low {
                    assert(order@[k] == before[k]);
                    place_order(all[i as int], all[before[k] as int], all[i as int]);
                } else if k == low {
                    assert(order@[l] == before[l - 1]);
                } else {
                    let k0 = if k < low { k } else { k - 1 };
                    let l0 = if l < low { l } else { l - 1 };
                    assert(order@[k] == before[k0] && order@[l] == before[l0]);
                }
            }
        }
        i += 1;
    }
    proof {
        assert(is_stable_order(all, order@));
        stable_order_is_unique(all, order@, stable_positions(all));
    }
    order
}

/// Each text stands before all that follow it.
pub open spec fn strictly_ascending(s: Seq<Seq<char>>) -> bool {
    forall|i: int, j: int| 0 <= i < j < s.len() ==> text_less(#[trigger] s[i], #[trigger] s[j])
}

/// The order of a set of texts leaves no choice: two ascending lists of the same values are equal.
pub proof fn ascending_lists_agree(a: Seq<Seq<char>>, b: Seq<Seq<char>>)
    requires
        strictly_ascending(a),
        strictly_ascending(b),
        forall|v: Seq<char>| #[trigger] a.contains(v) <==> b.contains(v),
    ensures
        a == b,
    decreases a.len(),
{
    if a.len() == 0 {
        if b.len() > 0 {
            assert(b.contains(b[0]));
            assert(a.contains(b[0]));
        }
        assert(a =~= b);
    } else {
        assert(a.contains(a.last()));
        assert(b.contains(a.last()));
        let k = choose|k: int| 0 <= k < b.len() && b[k] == a.last();
        assert(b.contains(b.last()));
        assert(a.contains(b.last()));
        let l = choose|l: int| 0 <= l < a.len() && a[l] == b.last();
        if k < b.len() - 1 {
            assert(text_less(b[k], b[b.len() - 1]));
            if l < a.len() - 1 {
                assert(text_less(a[l], a[a.len() - 1]));
                text_less_transitive(a.last(), b.last(), a.last());
            }
            text_less_irreflexive(a.last());
        }
        assert(a.last() == b.last());
        let x = a.drop_last();
        let y = b.drop_last();
        assert forall|v: Seq<char>| #[trigger] x.contains(v) <==> y.contains(v) by {
            text_less_irreflexive(v);
            if x.contains(v) {
                let n = choose|n: int| 0 <= n < x.len() && x[n] == v;
                assert(a[n] == v && text_less(a[n], a[a.len() - 1]));
                assert(a.contains(v));
                let m = choose|m: int| 0 <= m < b.len() && b[m] == v;
                assert(y[m] == v);
            }
            if y.contains(v) {
                let n = choose|n: int| 0 <= n < y.len() && y[n] == v;
                assert(b[n] == v && text_less(b[n], b[b.len() - 1]));
                assert(b.contains(v));
                assert(a.contains(v));
                let m = choose|m: int| 0 <= m < a.len() && a[m] == v;
                assert(x[m] == v);
            }
        }
        ascending_lists_agree(x, y);
        assert(a =~= x.push(a.last()));
        assert(b =~= y.push(b.last()));
    }
}

/// The listed values in ascending order, each once.
pub open spec fn sorted_values(s: Seq<Seq<char>>) -> Seq<Seq<char>> {
    choose|l: Seq<Seq<char>>| lists_values(l, s)
}

/// `l` holds the values of `s`, ascending and each once.
pub open spec fn lists_values(l: Seq<Seq<char>>, s: Seq<Seq<char>>) -> bool {
    strictly_ascending(l) && forall|v: Seq<char>| #[trigger] l.contains(v) <==> s.contains(v)
}

proof fn text_insertion_point(l: Seq<Seq<char>>, x: Seq<char>, n: int) -> (p: int)
    requires
        strictly_ascending(l),
        !l.contains(x),
        0 <= n <= l.len(),
        forall|k: int| n <= k < l.len() ==> text_less(x, #[trigger] l[k]),
    ensures
        0 <= p <= l.len(),
        forall|k: int| 0 <= k < p ==> text_less(#[trigger] l[k], x),
        forall|k: int| p <= k < l.len() ==> text_less(x, #[trigger] l[k]),
    decreases n,
{
    if n == 0 {
        0
    } else if text_less(x, l[n - 1]) {
        text_insertion_point(l, x, n - 1)
    } else {
        assert(l.contains(l[n - 1]));
        text_less_total(x, l[n - 1]);
        assert forall|k: int| 0 <= k < n implies text_less(#[trigger] l[k], x) by {
            if k < n - 1 {
                text_less_transitive(l[k], l[n - 1], x);
            }
        }
        n
    }
}

/// Every list of texts has its values in ascending order.
pub proof fn sorted_values_exist(s: Seq<Seq<char>>)
    ensures
        lists_values(sorted_values(s), s),
    decreases s.len(),
{
    if s.len() == 0 {
        assert(lists_values(Seq::<Seq<char>>::empty(), s));
    } else {
        let init = s.drop_last();
        let x = s.last();
        sorted_values_exist(init);
        let before = sorted_values(init);
        assert forall|v: Seq<char>| #[trigger] s.contains(v) <==> init.contains(v) || v == x by {
            if s.contains(v) {
                let k = choose|k: int| 0 <= k < s.len() && s[k] == v;
                if k < s.len() - 1 {
                    assert(init[k] == v);
                }
            }
            if init.contains(v) {
                let k = choose|k: int| 0 <= k < init.len() && init[k] == v;
                assert(s[k] == v);
            }
            if v == x {
                assert(s[s.len() - 1] == v);
            }
        }
        if before.contains(x) {
            assert(lists_values(before, s)) by {
                assert forall|v: Seq<char>| #[trigger] before.contains(v) <==> s.contains(v) by {
                    assert(before.contains(v) <==> init.contains(v));
                }
            }
        } else {
            let p = text_insertion_point(before, x, before.len() as int);
            let after = before.insert(p, x);
            assert forall|i: int, j: int| 0 <= i < j < after.len() implies text_less(
                #[trigger] after[i],
                #[trigger] after[j],
            ) by {
                if i == p {
                    assert(after[j] == before[j - 1]);
                } else if j == p {
                    assert(after[i] == before[i]);
                } else {
                    let i0 = if i < p { i } else { i - 1 };
                    let j0 = if j < p { j } else { j - 1 };
                    assert(after[i] == before[i0] && after[j] == before[j0]);
                }
            }
            assert forall|v: Seq<char>| #[trigger] after.contains(v) <==> s.contains(v) by {
                assert(before.contains(v) <==> init.contains(v));
                if after.contains(v) {
                    let k = choose|k: int| 0 <= k < after.len() && after[k] == v;
                    if k < p {
                        assert(before[k] == v);
                    } else if k > p {
                        assert(before[k - 1] == v);
                    }
                }
                if before.contains(v) {
                    let k = choose|k: int| 0 <= k < before.len() && before[k] == v;
                    if k < p {
                        assert(after[k] == v);
                    } else {
                        assert(after[k + 1] == v);
                    }
                }
                if v == x {
                    assert(after[p] == v);
                }
            }
            assert(lists_values(after, s));
        }
    }
}

/// There is one way only to list values in ascending order.
pub proof fn sorted_values_is_unique(l: Seq<Seq<char>>, s: Seq<Seq<char>>)
    requires
        lists_values(l, s),
    ensures
        l == sorted_values(s),
{
    let c = sorted_values(s);
    assert(lists_values(c, s));
    assert forall|v: Seq<char>| #[trigger] l.contains(v) <==> c.contains(v) by {
        assert(l.contains(v) <==> s.contains(v));
        assert(c.contains(v) <==> s.contains(v));
    }
    ascending_lists_agree(l, c);
}

/// The listed values in ascending order, each once.
pub(crate) fn sorted_distinct(list: &Vec<String>) -> (r: Vec<String>)
    ensures
        texts(r@) == sorted_values(texts(list@)),
        strictly_ascending(texts(r@)),
        forall|v: Seq<char>| #[trigger] texts(r@).contains(v) <==> texts(list@).contains(v),
{
    let mut keys: Vec<SortKey> = Vec::new();
    let mut i: usize = 0;
    while i < list.len()
        invariant
            i <= list@.len(),
            keys@.len() == i,
            forall|k: int|
                0 <= k < i ==> (#[trigger] keys@[k])@ == (Place {
                    first: 0,
                    second: 0,
                    third: 0,
                    fourth: 0,
                    text: list@[k]@,
                }),
        decreases list@.len() - i,
    {
        keys.push(
            SortKey { first: 0, second: 0, third: 0, fourth: 0, text: chars_of(list[i].as_str()) },
        );
        i += 1;
    }
    let order = stable_order(&keys);
    let ghost all = places(keys@);
    let ghost given = texts(list@);
    proof {
        order_covers(all, order@);
    }
    let mut out: Vec<String> = Vec::new();
    let mut n: usize = 0;
    while n < order.len()
        invariant
            n <= order@.len(),
            all == places(keys@),
            given == texts(list@),
            keys@.len() == list@.len(),
            forall|k: int| 0 <= k < keys@.len() ==> (#[trigger] all[k]).text == given[k],
            forall|k: int|
                0 <= k < keys@.len() ==> (#[trigger] all[k]).first == 0 && all[k].second == 0
                    && all[k].third == 0 && all[k].fourth == 0,
            is_stable_order(all, order@),
            strictly_ascending(texts(out@)),
            forall|k: int|
                0 <= k < n ==> texts(out@).contains(given[#[trigger] order@[k] as int]),
            forall|v: Seq<char>| #[trigger] texts(out@).contains(v) ==> given.contains(v),
            out@.len() == 0 <==> n == 0,
            n > 0 ==> out@.last()@ == given[order@[n - 1] as int],
        decreases order@.len() - n,
    {
        let position: usize = order[n];
        let ghost now = given[position as int];
        let ghost earlier = texts(out@);
        let repeated = out.len() > 0 && same_text(
            out[out.len() - 1].as_str(),
            list[position].as_str(),
        );
        if !repeated {
            out.push(list[position].clone());
            proof {
                let later = texts(out@);
                assert(later =~= earlier.push(now));
                if n > 0 {
                    let previous = given[order@[n - 1] as int];
                    assert(comes_before(all, order@[n - 1] as int, order@[n as int] as int));
                    assert(text_less(previous, now));
                    assert forall|a: int, b: int| 0 <= a < b < later.len() implies text_less(
                        #[trigger] later[a],
                        #[trigger] later[b],
                    ) by {
                        if b == later.len() - 1 {
                            assert(earlier[earlier.len() - 1] == previous);
                            if a < earlier.len() - 1 {
                                assert(text_less(earlier[a], earlier[earlier.len() - 1]));
                                text_less_transitive(later[a], previous, now);
                            }
                        } else {
                            assert(text_less(earlier[a], earlier[b]));
                        }
                    }
                }
                assert(later[later.len() - 1] == now);
                assert forall|k: int| 0 <= k < n + 1 implies later.contains(
                    given[#[trigger] order@[k] as int],
                ) by {
                    if k < n {
                        let v = given[order@[k] as int];
                        let m = choose|m: int| 0 <= m < earlier.len() && earlier[m] == v;
                        assert(later[m] == v);
                    }
                }
                assert forall|v: Seq<char>| #[trigger] later.contains(v) implies given.contains(
                    v,
                ) by {
                    let m = choose|m: int| 0 <= m < later.len() && later[m] == v;
                    if m < earlier.len() {
                        assert(earlier[m] == v);
                        assert(earlier.contains(v));
                    } else {
                        assert(given[position as int] == v);
                    }
                }
            }
        } else {
            assert(texts(out@)[out@.len() - 1] == now);
        }
        n += 1;
    }
    proof {
        assert forall|v: Seq<char>| #[trigger] given.contains(v) implies texts(out@).contains(
            v,
        ) by {
            let k = choose|k: int| 0 <= k < given.len() && given[k] == v;
            assert(lists(order@, k));
            let m = choose|m: int| 0 <= m < order@.len() && #[trigger] order@[m] == k;
            assert(texts(out@).contains(given[order@[m] as int]));
        }
        sorted_values_is_unique(texts(out@), given);
    }
    out
}

/// Whether a position is listed.
pub open spec fn lists(order: Seq<usize>, k: int) -> bool {
    exists|m: int| 0 <= m < order.len() && #[trigger] order[m] == k
}

/// A stable order leaves no item out and lists none twice.
pub proof fn order_covers(all: Seq<Place>, order: Seq<usize>)
    requires
        is_stable_order(all, order),
    ensures
        order.no_duplicates(),
        forall|k: int| 0 <= k < all.len() ==> #[trigger] lists(order, k),
{
    assert forall|k: int, l: int| 0 <= k < l < order.len() implies order[k] != order[l] by {
        assert(comes_before(all, order[k] as int, order[l] as int));
        place_order(all[order[k] as int], all[order[l] as int], all[order[k] as int]);
    }
    assert(order.no_duplicates());
    let positions = Seq::new(order.len(), |m: int| order[m] as int);
    assert(positions.no_duplicates()) by {
        assert forall|k: int, l: int|
            0 <= k < positions.len() && 0 <= l < positions.len() && k != l implies positions[k]
            != positions[l] by {
            if k < l {
                assert(order[k] != order[l]);
            } else {
                assert(order[l] != order[k]);
            }
        }
    }
    let range = vstd::set_lib::set_int_range(0, all.len() as int);
    vstd::set_lib::lemma_int_range(0, all.len() as int);
    positions.unique_seq_to_set();
    assert(positions.to_set().subset_of(range)) by {
        assert forall|v: int| positions.to_set().contains(v) implies range.contains(v) by {
            let m = choose|m: int| 0 <= m < positions.len() && positions[m] == v;
            assert(order[m] < all.len());
        }
    }
    vstd::set_lib::lemma_subset_equality(positions.to_set(), range);
    assert forall|k: int| 0 <= k < all.len() implies #[trigger] lists(order, k) by {
        assert(range.contains(k));
        assert(positions.contains(k));
        let m = choose|m: int| 0 <= m < positions.len() && positions[m] == k;
        assert(order[m] == k);
    }
}

/// Each item stands before all that follow it.
pub open spec fn strictly_placed<T>(s: Seq<T>, place: spec_fn(T) -> Place) -> bool {
    forall|i: int, j: int|
        0 <= i < j < s.len() ==> place(#[trigger] s[i]).less(place(#[trigger] s[j]))
}

/// Distinct places leave no choice: two arrangements of the same items are equal.
pub proof fn placed_lists_agree<T>(a: Seq<T>, b: Seq<T>, place: spec_fn(T) -> Place)
    requires
        strictly_placed(a, place),
        strictly_placed(b, place),
        forall|v: T| #[trigger] a.contains(v) <==> b.contains(v),
    ensures
        a == b,
    decreases a.len(),
{
    if a.len() == 0 {
        if b.len() > 0 {
            assert(b.contains(b[0]));
            assert(a.contains(b[0]));
        }
        assert(a =~= b);
    } else {
        assert(a.contains(a.last()));
        assert(b.contains(a.last()));
        let k = choose|k: int| 0 <= k < b.len() && b[k] == a.last();
        assert(b.contains(b.last()));
        assert(a.contains(b.last()));
        let l = choose|l: int| 0 <= l < a.len() && a[l] == b.last();
        if k < b.len() - 1 {
            assert(place(b[k]).less(place(b[b.len() - 1])));
            if l < a.len() - 1 {
                assert(place(a[l]).less(place(a[a.len() - 1])));
            }
            place_order(place(a.last()), place(b.last()), place(a.last()));
        }
        assert(a.last() == b.last());
        let x = a.drop_last();
        let y = b.drop_last();
        assert forall|v: T| #[trigger] x.contains(v) <==> y.contains(v) by {
            place_order(place(v), place(v), place(v));
            if x.contains(v) {
                let n = choose|n: int| 0 <= n < x.len() && x[n] == v;
                assert(a[n] == v && place(a[n]).less(place(a[a.len() - 1])));
                assert(a.contains(v));
                let m = choose|m: int| 0 <= m < b.len() && b[m] == v;
                assert(y[m] == v);
            }
            if y.contains(v) {
                let n = choose|n: int| 0 <= n < y.len() && y[n] == v;
                assert(b[n] == v && place(b[n]).less(place(b[b.len() - 1])));
                assert(b.contains(v));
                assert(a.contains(v));
                let m = choose|m: int| 0 <= m < a.len() && a[m] == v;
                assert(x[m] == v);
            }
        }
        placed_lists_agree(x, y, place);
        assert(a =~= x.push(a.last()));
        assert(b =~= y.push(b.last()));
    }
}

/// Arranging items keeps all of them, and strictly so where no two have the same place.
pub proof fn arranged_facts<T>(items: Seq<T>, all: Seq<Place>, place: spec_fn(T) -> Place)
    requires
        all.len() == items.len() <= usize::MAX,
        forall|i: int| 0 <= i < items.len() ==> #[trigger] all[i] == place(items[i]),
    ensures
        arranged(items, all).len() == items.len(),
        forall|v: T| #[trigger] arranged(items, all).contains(v) <==> items.contains(v),
        forall|i: int, j: int|
            0 <= i < j < items.len() ==> !place(#[trigger] arranged(items, all)[j]).less(
                place(#[trigger] arranged(items, all)[i]),
            ),
        (forall|i: int, j: int|
            0 <= i < items.len() && 0 <= j < items.len() && i != j ==> #[trigger] all[i]
                != #[trigger] all[j]) ==> strictly_placed(arranged(items, all), place),
{
    stable_order_exists(all);
    let order = stable_positions(all);
    let out = arranged(items, all);
    order_covers(all, order);
    assert forall|v: T| #[trigger] out.contains(v) <==> items.contains(v) by {
        if out.contains(v) {
            let k = choose|k: int| 0 <= k < out.len() && out[k] == v;
            assert(items[order[k] as int] == v);
        }
        if items.contains(v) {
            let k = choose|k: int| 0 <= k < items.len() && items[k] == v;
            assert(lists(order, k));
            let m = choose|m: int| 0 <= m < order.len() && #[trigger] order[m] == k;
            assert(out[m] == v);
        }
    }
    assert forall|i: int, j: int| 0 <= i < j < items.len() implies !place(
        #[trigger] out[j],
    ).less(place(#[trigger] out[i])) by {
        assert(comes_before(all, order[i] as int, order[j] as int));
        assert(all[order[i] as int] == place(items[order[i] as int]));
        assert(all[order[j] as int] == place(items[order[j] as int]));
        place_order(place(out[i]), place(out[j]), place(out[i]));
    }
    if forall|i: int, j: int|
        0 <= i < items.len() && 0 <= j < items.len() && i != j ==> #[trigger] all[i]
            != #[trigger] all[j] {
        assert forall|i: int, j: int| 0 <= i < j < out.len() implies place(#[trigger] out[i]).less(
            place(#[trigger] out[j]),
        ) by {
            assert(comes_before(all, order[i] as int, order[j] as int));
            assert(all[order[i] as int] == place(items[order[i] as int]));
            assert(all[order[j] as int] == place(items[order[j] as int]));
            assert(order[i] != order[j]);
        }
    }
}

/// No two of the items have the same key.
pub open spec fn keyed_apart<T>(s: Seq<T>, key: spec_fn(T) -> Seq<char>) -> bool {
    forall|i: int, j: int|
        0 <= i < s.len() && 0 <= j < s.len() && i != j ==> key(#[trigger] s[i]) != key(
            #[trigger] s[j],
        )
}

/// An item with a key of its own may be added.
pub proof fn push_keeps_apart<T>(s: Seq<T>, v: T, key: spec_fn(T) -> Seq<char>)
    requires
        keyed_apart(s, key),
        forall|i: int| 0 <= i < s.len() ==> key(#[trigger] s[i]) != key(v),
    ensures
        keyed_apart(s.push(v), key),
{
    let out = s.push(v);
    assert forall|i: int, j: int|
        0 <= i < out.len() && 0 <= j < out.len() && i != j implies key(#[trigger] out[i]) != key(
        #[trigger] out[j],
    ) by {
        if i < s.len() && j < s.len() {
            assert(key(s[i]) != key(s[j]));
        } else {
            let o = if i < s.len() { i } else { j };
            assert(key(s[o]) != key(v));
        }
    }
}

/// An item may be changed as long as it keeps its key.
pub proof fn update_keeps_apart<T>(s: Seq<T>, k: int, v: T, key: spec_fn(T) -> Seq<char>)
    requires
        keyed_apart(s, key),
        0 <= k < s.len(),
        key(v) == key(s[k]),
    ensures
        keyed_apart(s.update(k, v), key),
{
    let out = s.update(k, v);
    assert forall|i: int, j: int|
        0 <= i < out.len() && 0 <= j < out.len() && i != j implies key(#[trigger] out[i]) != key(
        #[trigger] out[j],
    ) by {
        assert(key(s[i]) != key(s[j]));
    }
}

/// Leaving items out keeps the others apart.
pub proof fn filter_keeps_apart<T>(
    s: Seq<T>,
    p: spec_fn(T) -> bool,
    key: spec_fn(T) -> Seq<char>,
)
    requires
        keyed_apart(s, key),
    ensures
        keyed_apart(s.filter(p), key),
    decreases s.len(),
{
    reveal(Seq::filter);
    if s.len() > 0 {
        let init = s.drop_last();
        assert(keyed_apart(init, key)) by {
            assert forall|i: int, j: int|
                0 <= i < init.len() && 0 <= j < init.len() && i != j implies key(
                #[trigger] init[i],
            ) != key(#[trigger] init[j]) by {
                assert(key(s[i]) != key(s[j]));
            }
        }
        filter_keeps_apart(init, p, key);
        let out = s.filter(p);
        let n = init.filter(p).len();
        assert forall|i: int, j: int|
            0 <= i < out.len() && 0 <= j < out.len() && i != j implies key(#[trigger] out[i])
            != key(#[trigger] out[j]) by {
            if i < n && j < n {
                assert(key(init.filter(p)[i]) != key(init.filter(p)[j]));
            } else {
                let o = if i < n { i } else { j };
                assert(init.filter(p).contains(init.filter(p)[o]));
                init.lemma_filter_contains_rev(p, init.filter(p)[o]);
                let k = choose|k: int| 0 <= k < init.len() && init[k] == init.filter(p)[o];
                assert(key(s[k]) != key(s[s.len() - 1]));
            }
        }
    }
}

/// A filtered list holds exactly the listed values that pass.
pub proof fn filter_values<T>(s: Seq<T>, p: spec_fn(T) -> bool, v: T)
    ensures
        s.filter(p).contains(v) <==> s.contains(v) && p(v),
{
    if s.filter(p).contains(v) {
        s.lemma_filter_contains_rev(p, v);
        let i = choose|i: int| 0 <= i < s.filter(p).len() && s.filter(p)[i] == v;
        s.lemma_filter_pred(p, i);
    }
    if s.contains(v) && p(v) {
        let i = choose|i: int| 0 <= i < s.len() && s[i] == v;
        s.lemma_filter_contains(p, i);
    }
}

/// A text stands before another one exactly where, at the first place at which they differ, its
/// character is the smaller one, or where it is a proper beginning of the other one.
pub proof fn texts_are_ordered_by_their_first_difference(a: Seq<char>, b: Seq<char>, n: int)
    requires
        0 <= n <= a.len(),
        n <= b.len(),
        forall|i: int| 0 <= i < n ==> a[i] == b[i],
    ensures
        n < a.len() && n < b.len() && a[n] != b[n] ==> (text_less(a, b) <==> a[n] < b[n]),
        n == a.len() ==> (text_less(a, b) <==> a.len() < b.len()),
        n == b.len() ==> !text_less(a, b),
    decreases n,
{
    if n > 0 {
        assert(a[0] == b[0]);
        assert forall|i: int| 0 <= i < n - 1 implies a.skip(1)[i] == b.skip(1)[i] by {
            assert(a[i + 1] == b[i + 1]);
        }
        texts_are_ordered_by_their_first_difference(a.skip(1), b.skip(1), n - 1);
    }
}

/// Of two places in an order, the first of their four numbers that differs decides, the smaller one
/// first, and where all are equal the text.
pub proof fn places_are_ordered_by_their_first_difference(a: Place, b: Place)
    ensures
        a.first < b.first ==> a.less(b),
        a.first == b.first && a.second < b.second ==> a.less(b),
        a.first == b.first && a.second == b.second && a.third < b.third ==> a.less(b),
        a.first == b.first && a.second == b.second && a.third == b.third && a.fourth < b.fourth
            ==> a.less(b),
        a.first == b.first && a.second == b.second && a.third == b.third && a.fourth == b.fourth ==> (
        a.less(b) <==> text_less(a.text, b.text)),
        a.less(b) ==> !b.less(a),
{
    place_order(a, b, a);
}

} // verus!
