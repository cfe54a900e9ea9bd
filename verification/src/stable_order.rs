//! Sorting by keys, where equal keys keep the order that they came in.
use vstd::prelude::*;

verus! {

/// `a` comes before `b`: its key is smaller, or the keys are equal and `a` came
/// first.
pub open spec fn comes_before(keys: Seq<int>, a: int, b: int) -> bool {
    keys[a] < keys[b] || keys[a] == keys[b] && a < b
}

/// The places of the keys, in the order in which a stable sort puts them.
pub open spec fn is_stable_order(keys: Seq<int>, order: Seq<usize>) -> bool {
    &&& order.len() == keys.len()
    &&& forall|i: int| 0 <= i < order.len() ==> #[trigger] order[i] < keys.len()
    &&& forall|i: int, j: int|
        0 <= i < j < order.len() ==> comes_before(
            keys,
            #[trigger] order[i] as int,
            #[trigger] order[j] as int,
        )
}

/// The order in which a stable sort puts the keys.
pub open spec fn stable_order_of(keys: Seq<int>) -> Seq<usize> {
    choose|order: Seq<usize>| is_stable_order(keys, order)
}

/// The keys as integers.
pub open spec fn key_values(keys: Seq<i64>) -> Seq<int> {
    keys.map_values(|k: i64| k as int)
}

/// There is a stable order of any keys.
pub proof fn stable_order_exists(keys: Seq<int>)
    requires
        keys.len() <= usize::MAX,
    ensures
        is_stable_order(keys, stable_order_of(keys)),
    decreases keys.len(),
{
    if keys.len() == 0 {
        assert(is_stable_order(keys, Seq::<usize>::empty()));
    } else {
        let shorter = keys.drop_last();
        stable_order_exists(shorter);
        let o = stable_order_of(shorter);
        let n = shorter.len() as usize;
        let p = lemma_insertion_place(keys, o, o.len() as int);
        let longer = o.insert(p, n);
        assert forall|i: int| 0 <= i < longer.len() implies #[trigger] longer[i] < keys.len() by {
            if i < p {
                assert(longer[i] == o[i]);
            } else if i > p {
                assert(longer[i] == o[i - 1]);
            }
        }
        assert forall|i: int, j: int| 0 <= i < j < longer.len() implies comes_before(
            keys,
            #[trigger] longer[i] as int,
            #[trigger] longer[j] as int,
        ) by {
            let a = if i < p {
                i
            } else {
                i - 1
            };
            let b = if j < p {
                j
            } else {
                j - 1
            };
            if i != p {
                assert(longer[i] == o[a]);
                assert(shorter[o[a] as int] == keys[o[a] as int]);
            }
            if j != p {
                assert(longer[j] == o[b]);
                assert(shorter[o[b] as int] == keys[o[b] as int]);
            }
            if i != p && j != p {
                assert(comes_before(shorter, o[a] as int, o[b] as int));
            }
        }
        assert(is_stable_order(keys, longer));
    }
}

/// In a stable order the keys ascend, and places with equal keys stay in the order
/// in which they came.
pub proof fn stable_orders_ascend(keys: Seq<int>, order: Seq<usize>, i: int, j: int)
    requires
        is_stable_order(keys, order),
        0 <= i < j < keys.len(),
    ensures
        order.len() == keys.len(),
        order[i] < keys.len(),
        keys[order[i] as int] <= keys[order[j] as int],
        keys[order[i] as int] == keys[order[j] as int] ==> order[i] < order[j],
{
    assert(comes_before(keys, order[i] as int, order[j] as int));
}

/// Where the last key goes among the others: behind all that are not larger.
proof fn lemma_insertion_place(keys: Seq<int>, o: Seq<usize>, k: int) -> (p: int)
    requires
        keys.len() > 0,
        is_stable_order(keys.drop_last(), o),
        0 <= k <= o.len(),
        forall|i: int| k <= i < o.len() ==> keys[#[trigger] o[i] as int] > keys.last(),
    ensures
        0 <= p <= o.len(),
        forall|i: int| 0 <= i < p ==> keys[#[trigger] o[i] as int] <= keys.last(),
        forall|i: int| p <= i < o.len() ==> keys[#[trigger] o[i] as int] > keys.last(),
    decreases k,
{
    let shorter = keys.drop_last();
    if k == 0 {
        0
    } else if keys[o[k - 1] as int] > keys.last() {
        lemma_insertion_place(keys, o, k - 1)
    } else {
        assert forall|i: int| 0 <= i < k implies keys[#[trigger] o[i] as int] <= keys.last() by {
            assert(o[i] < shorter.len() && o[k - 1] < shorter.len());
            assert(shorter[o[i] as int] == keys[o[i] as int]);
            assert(shorter[o[k - 1] as int] == keys[o[k - 1] as int]);
            if i < k - 1 {
                assert(comes_before(shorter, o[i] as int, o[k - 1] as int));
            }
        }
        k
    }
}

/// A stable order has every place in it.
pub proof fn stable_order_has_every_place(keys: Seq<int>, order: Seq<usize>, place: usize)
    requires
        is_stable_order(keys, order),
        place < keys.len(),
    ensures
        order.contains(place),
{
    let n = keys.len();
    let places = order.map_values(|p: usize| p as int);
    assert(places.no_duplicates()) by {
        assert forall|i: int, j: int|
            0 <= i < places.len() && 0 <= j < places.len() && i != j implies places[i]
            != places[j] by {
            if i < j {
                assert(comes_before(keys, order[i] as int, order[j] as int));
            } else {
                assert(comes_before(keys, order[j] as int, order[i] as int));
            }
        }
    }
    places.unique_seq_to_set();
    let range = vstd::set_lib::set_int_range(0, n as int);
    vstd::set_lib::lemma_int_range(0, n as int);
    assert(places.to_set().subset_of(range)) by {
        assert forall|p: int| places.to_set().contains(p) implies range.contains(p) by {
            let i = choose|i: int| 0 <= i < places.len() && places[i] == p;
            assert(order[i] < n);
        }
    }
    vstd::set_lib::lemma_subset_equality(places.to_set(), range);
    assert(range.contains(place as int));
    let i = choose|i: int| 0 <= i < places.len() && places[i] == place as int;
    assert(order[i] == place);
}

proof fn lemma_same_prefix(keys: Seq<int>, a: Seq<usize>, b: Seq<usize>, n: int)
    requires
        is_stable_order(keys, a),
        is_stable_order(keys, b),
        0 <= n <= keys.len(),
    ensures
        forall|i: int| 0 <= i < n ==> #[trigger] a[i] == b[i],
    decreases n,
{
    if n > 0 {
        let k = n - 1;
        lemma_same_prefix(keys, a, b, k);
        if a[k] != b[k] {
            assert(a[k] < keys.len() && b[k] < keys.len());
            stable_order_has_every_place(keys, b, a[k]);
            stable_order_has_every_place(keys, a, b[k]);
            let p = choose|p: int| 0 <= p < b.len() && b[p] == a[k];
            let q = choose|q: int| 0 <= q < a.len() && a[q] == b[k];
            if p < k {
                assert(a[p] == b[p]);
                assert(comes_before(keys, a[p] as int, a[k] as int));
            }
            if q < k {
                assert(a[q] == b[q]);
                assert(comes_before(keys, b[q] as int, b[k] as int));
            }
            assert(comes_before(keys, b[k] as int, b[p] as int));
            assert(comes_before(keys, a[k] as int, a[q] as int));
        }
    }
}

/// There is one stable order only.
pub proof fn stable_order_is_unique(keys: Seq<int>, a: Seq<usize>, b: Seq<usize>)
    requires
        is_stable_order(keys, a),
        is_stable_order(keys, b),
    ensures
        a == b,
{
    lemma_same_prefix(keys, a, b, keys.len() as int);
    assert(a =~= b);
}

/// The places from `lo` to `hi` are all in the list, in stable order.
spec fn sorted_part(keys: Seq<i64>, part: Seq<usize>, lo: int, hi: int) -> bool {
    &&& part.len() == hi - lo
    &&& forall|i: int| 0 <= i < part.len() ==> lo <= #[trigger] part[i] < hi
    &&& forall|i: int, j: int|
        0 <= i < j < part.len() ==> comes_before(
            key_values(keys),
            #[trigger] part[i] as int,
            #[trigger] part[j] as int,
        )
}

fn merge(
    keys: &Vec<i64>,
    a: Vec<usize>,
    b: Vec<usize>,
    Ghost(lo): Ghost<int>,
    Ghost(mid): Ghost<int>,
    Ghost(hi): Ghost<int>,
) -> (out: Vec<usize>)
    requires
        0 <= lo <= mid <= hi <= keys@.len(),
        sorted_part(keys@, a@, lo, mid),
        sorted_part(keys@, b@, mid, hi),
    ensures
        sorted_part(keys@, out@, lo, hi),
{
    let mut out: Vec<usize> = Vec::new();
    let mut i: usize = 0;
    let mut j: usize = 0;
    let ghost kv = key_values(keys@);
    while i < a.len() || j < b.len()
        invariant
            i <= a.len(),
            j <= b.len(),
            kv == key_values(keys@),
            0 <= lo <= mid <= hi <= keys@.len(),
            sorted_part(keys@, a@, lo, mid),
            sorted_part(keys@, b@, mid, hi),
            out@.len() == i + j,
            forall|x: int| 0 <= x < out@.len() ==> lo <= #[trigger] out@[x] < hi,
            forall|x: int, y: int|
                0 <= x < y < out@.len() ==> comes_before(
                    kv,
                    #[trigger] out@[x] as int,
                    #[trigger] out@[y] as int,
                ),
            forall|x: int, y: int|
                0 <= x < out@.len() && i <= y < a@.len() ==> comes_before(
                    kv,
                    #[trigger] out@[x] as int,
                    #[trigger] a@[y] as int,
                ),
            forall|x: int, y: int|
                0 <= x < out@.len() && j <= y < b@.len() ==> comes_before(
                    kv,
                    #[trigger] out@[x] as int,
                    #[trigger] b@[y] as int,
                ),
        decreases a.len() - i + (b.len() - j),
    {
        if j >= b.len() || (i < a.len() && keys[a[i]] <= keys[b[j]]) {
            assert forall|y: int| j <= y < b@.len() implies comes_before(
                kv,
                a@[i as int] as int,
                #[trigger] b@[y] as int,
            ) by {
                assert(a@[i as int] < b@[j as int]);
                if j < y {
                    assert(comes_before(kv, b@[j as int] as int, b@[y] as int));
                }
            }
            out.push(a[i]);
            i = i + 1;
        } else {
            assert forall|y: int| i <= y < a@.len() implies comes_before(
                kv,
                b@[j as int] as int,
                #[trigger] a@[y] as int,
            ) by {
                assert(comes_before(kv, b@[j as int] as int, a@[i as int] as int));
                if i < y {
                    assert(comes_before(kv, a@[i as int] as int, a@[y] as int));
                }
            }
            out.push(b[j]);
            j = j + 1;
        }
    }
    out
}

fn sort_part(keys: &Vec<i64>, lo: usize, hi: usize) -> (out: Vec<usize>)
    requires
        lo <= hi <= keys@.len(),
    ensures
        sorted_part(keys@, out@, lo as int, hi as int),
    decreases hi - lo,
{
    let mut out: Vec<usize> = Vec::new();
    if hi - lo == 0 {
        return out;
    }
    if hi - lo == 1 {
        out.push(lo);
        return out;
    }
    let mid: usize = lo + (hi - lo) / 2;
    let a = sort_part(keys, lo, mid);
    let b = sort_part(keys, mid, hi);
    merge(keys, a, b, Ghost(lo as int), Ghost(mid as int), Ghost(hi as int))
}

/// The places of the keys, in the order in which a stable sort puts them.
pub fn stable_order(keys: &Vec<i64>) -> (order: Vec<usize>)
    ensures
        is_stable_order(key_values(keys@), order@),
        order@ == stable_order_of(key_values(keys@)),
{
    let order = sort_part(keys, 0, keys.len());
    proof {
        assert(is_stable_order(key_values(keys@), order@));
        stable_order_is_unique(key_values(keys@), order@, stable_order_of(key_values(keys@)));
    }
    order
}

} // verus!
