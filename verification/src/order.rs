//! Stable sorting: the order in which items stand when sorted by a key, items
//! with equal keys staying in the order in which they came.

use vstd::prelude::*;

verus! {

/// `order` with the position `x` put behind every position whose key is not
/// greater than that of `x`.
pub open spec fn inserted(keys: Seq<u64>, order: Seq<int>, x: int) -> Seq<int>
    decreases order.len(),
{
    if order.len() == 0 || keys[order.last()] <= keys[x] {
        order.push(x)
    } else {
        inserted(keys, order.drop_last(), x).push(order.last())
    }
}

/// The order of the first `n` positions by ascending key.
pub open spec fn order_of_first(keys: Seq<u64>, n: nat) -> Seq<int>
    decreases n,
{
    if n == 0 {
        Seq::empty()
    } else {
        inserted(keys, order_of_first(keys, (n - 1) as nat), n - 1)
    }
}

/// The positions of `keys` in the order of their keys.
pub open spec fn sort_order(keys: Seq<u64>) -> Seq<int> {
    order_of_first(keys, keys.len())
}

/// The items at the given positions.
pub open spec fn pick<T>(items: Seq<T>, order: Seq<int>) -> Seq<T> {
    Seq::new(order.len(), |i: int| items[order[i]])
}

/// Whether position `a` comes before position `b`: by the smaller key, and
/// for equal keys by the smaller position.
pub open spec fn comes_first(keys: Seq<u64>, a: int, b: int) -> bool {
    keys[a] < keys[b] || (keys[a] == keys[b] && a < b)
}

/// Whether `order` lists the positions below `n`, each once, by ascending key
/// and, for equal keys, by ascending position.
pub open spec fn is_sorted_order(keys: Seq<u64>, order: Seq<int>, n: nat) -> bool {
    &&& order.len() == n
    &&& forall|i: int| 0 <= i < order.len() ==> 0 <= #[trigger] order[i] < n
    &&& forall|x: int| 0 <= x < n ==> #[trigger] order.contains(x)
    &&& forall|i: int, j: int|
        0 <= i < j < order.len() ==> comes_first(keys, #[trigger] order[i], #[trigger] order[j])
}

proof fn lemma_inserted(keys: Seq<u64>, order: Seq<int>, x: int)
    requires
        forall|i: int| 0 <= i < order.len() ==> 0 <= #[trigger] order[i] < x,
        forall|i: int, j: int|
            0 <= i < j < order.len() ==> comes_first(keys, #[trigger] order[i], #[trigger] order[j]),
    ensures
        inserted(keys, order, x).len() == order.len() + 1,
        forall|y: int|
            #[trigger] inserted(keys, order, x).contains(y) <==> y == x || order.contains(y),
        forall|i: int, j: int|
            0 <= i < j < order.len() + 1 ==> comes_first(
                keys,
                #[trigger] inserted(keys, order, x)[i],
                #[trigger] inserted(keys, order, x)[j],
            ),
    decreases order.len(),
{
    let r = inserted(keys, order, x);
    if order.len() == 0 || keys[order.last()] <= keys[x] {
        assert(r[order.len() as int] == x);
        assert forall|y: int| #[trigger] r.contains(y) <==> y == x || order.contains(y) by {
            if order.contains(y) {
                let k = order.index_of(y);
                assert(r[k] == y);
            }
        }
        assert forall|i: int, j: int| 0 <= i < j < r.len() implies comes_first(
            keys,
            #[trigger] r[i],
            #[trigger] r[j],
        ) by {
            if j == order.len() {
                if i < order.len() - 1 {
                    assert(comes_first(keys, order[i], order.last()));
                }
            }
        }
    } else {
        let front = order.drop_last();
        let s = inserted(keys, front, x);
        lemma_inserted(keys, front, x);
        assert(r[s.len() as int] == order.last());
        assert forall|y: int| #[trigger] r.contains(y) <==> y == x || order.contains(y) by {
            if s.contains(y) {
                let k = s.index_of(y);
                assert(r[k] == y);
            }
            if order.contains(y) {
                let k = order.index_of(y);
                if k < front.len() {
                    assert(front[k] == y);
                }
            }
            if front.contains(y) {
                let k = front.index_of(y);
                assert(order[k] == y);
            }
            if r.contains(y) {
                let k = r.index_of(y);
                if k < s.len() {
                    assert(s[k] == y);
                }
            }
        }
        assert forall|i: int, j: int| 0 <= i < j < r.len() implies comes_first(
            keys,
            #[trigger] r[i],
            #[trigger] r[j],
        ) by {
            if j < s.len() {
                assert(comes_first(keys, s[i], s[j]));
            } else {
                assert(s.contains(s[i]));
                if front.contains(s[i]) {
                    let k = front.index_of(s[i]);
                    assert(comes_first(keys, order[k], order[order.len() - 1]));
                }
            }
        }
    }
}

proof fn lemma_order_of_first(keys: Seq<u64>, n: nat)
    requires
        n <= keys.len(),
    ensures
        is_sorted_order(keys, order_of_first(keys, n), n),
    decreases n,
{
    if n > 0 {
        let shorter = order_of_first(keys, (n - 1) as nat);
        let r = order_of_first(keys, n);
        lemma_order_of_first(keys, (n - 1) as nat);
        lemma_inserted(keys, shorter, n - 1);
        assert forall|i: int| 0 <= i < r.len() implies 0 <= #[trigger] r[i] < n by {
            assert(r.contains(r[i]));
            if shorter.contains(r[i]) {
                let k = shorter.index_of(r[i]);
                assert(0 <= shorter[k] < n - 1);
            }
        }
        assert forall|x: int| 0 <= x < n implies #[trigger] r.contains(x) by {
            if x < n - 1 {
                assert(shorter.contains(x));
            }
        }
    }
}

/// The sorted order lists every position once, by ascending key, and positions
/// with equal keys in the order in which they came.
pub proof fn sort_order_is_sorted(keys: Seq<u64>)
    ensures
        is_sorted_order(keys, sort_order(keys), keys.len()),
{
    lemma_order_of_first(keys, keys.len());
}

proof fn lemma_inserted_at(keys: Seq<u64>, order: Seq<int>, x: int, p: int)
    requires
        0 <= p <= order.len(),
        p == 0 || keys[order[p - 1]] <= keys[x],
        forall|j: int| p <= j < order.len() ==> keys[#[trigger] order[j]] > keys[x],
    ensures
        inserted(keys, order, x) == order.insert(p, x),
    decreases order.len(),
{
    if p == order.len() {
        assert(order.insert(p, x) =~= order.push(x));
    } else {
        assert(keys[order[order.len() - 1]] > keys[x]);
        lemma_inserted_at(keys, order.drop_last(), x, p);
        assert(order.insert(p, x) =~= order.drop_last().insert(p, x).push(order.last()));
    }
}

/// The positions that a list of indices names.
pub open spec fn positions(v: Seq<usize>) -> Seq<int> {
    Seq::new(v.len(), |i: int| v[i] as int)
}

/// The positions of `keys` in the order of their keys.
pub fn sorted_order(keys: &Vec<u64>) -> (r: Vec<usize>)
    ensures
        positions(r@) == sort_order(keys@),
        r@.len() == keys@.len(),
        forall|i: int| 0 <= i < r@.len() ==> #[trigger] r@[i] < keys@.len(),
{
    let mut order: Vec<usize> = Vec::new();
    let mut n: usize = 0;
    assert(positions(order@) =~= order_of_first(keys@, 0));
    while n < keys.len()
        invariant
            n <= keys@.len(),
            positions(order@) == order_of_first(keys@, n as nat),
            order@.len() == n,
            forall|i: int| 0 <= i < order@.len() ==> #[trigger] order@[i] < n,
        decreases keys@.len() - n,
    {
        let mut p: usize = n;
        while p > 0 && keys[order[p - 1]] > keys[n]
            invariant
                n < keys@.len(),
                p <= n == order@.len(),
                forall|i: int| 0 <= i < order@.len() ==> #[trigger] order@[i] < n,
                forall|j: int| p <= j < n ==> keys@[#[trigger] order@[j] as int] > keys@[n as int],
            decreases p,
        {
            p -= 1;
        }
        let ghost was = order@;
        proof {
            let pos = positions(was);
            assert(forall|j: int| 0 <= j < n ==> pos[j] == was[j] as int);
            lemma_inserted_at(keys@, pos, n as int, p as int);
        }
        order.insert(p, n);
        assert(positions(order@) =~= positions(was).insert(p as int, n as int));
        n += 1;
    }
    proof {
        sort_order_is_sorted(keys@);
        assert forall|i: int| 0 <= i < order@.len() implies #[trigger] order@[i] < keys@.len() by {
            assert(positions(order@)[i] == order@[i] as int);
        }
    }
    order
}

/// The keys in ascending order.
pub open spec fn ascending(keys: Seq<u64>) -> Seq<u64> {
    pick(keys, sort_order(keys))
}

/// The keys in ascending order.
pub fn sorted_keys(keys: &Vec<u64>) -> (r: Vec<u64>)
    ensures
        r@ == ascending(keys@),
{
    let order = sorted_order(keys);
    let mut out: Vec<u64> = Vec::new();
    let mut i: usize = 0;
    while i < order.len()
        invariant
            i <= order@.len(),
            positions(order@) == sort_order(keys@),
            forall|i: int| 0 <= i < order@.len() ==> #[trigger] order@[i] < keys@.len(),
            out@ == ascending(keys@).subrange(0, i as int),
        decreases order@.len() - i,
    {
        let at: usize = order[i];
        assert(positions(order@)[i as int] == at as int);
        out.push(keys[at]);
        i += 1;
        assert(out@ =~= ascending(keys@).subrange(0, i as int));
    }
    assert(out@ =~= ascending(keys@));
    out
}

/// The keys in ascending order are all the keys, and ascend.
pub proof fn ascending_keys_ascend(keys: Seq<u64>)
    ensures
        ascending(keys).len() == keys.len(),
        forall|i: int, j: int|
            #![trigger ascending(keys)[i], ascending(keys)[j]]
            0 <= i <= j < keys.len() ==> ascending(keys)[i] <= ascending(keys)[j],
        forall|k: u64| #[trigger] ascending(keys).contains(k) <==> keys.contains(k),
{
    let order = sort_order(keys);
    let sorted = ascending(keys);
    sort_order_is_sorted(keys);
    assert forall|i: int, j: int|
        #![trigger sorted[i], sorted[j]]
        0 <= i <= j < keys.len() implies sorted[i] <= sorted[j] by {
        assert(0 <= order[i] < keys.len() && 0 <= order[j] < keys.len());
        if i < j {
            assert(comes_first(keys, order[i], order[j]));
        }
    }
    assert forall|k: u64| #[trigger] sorted.contains(k) <==> keys.contains(k) by {
        if sorted.contains(k) {
            let i = sorted.index_of(k);
            assert(0 <= order[i] < keys.len());
            assert(keys[order[i]] == k);
        }
        if keys.contains(k) {
            let x = keys.index_of(k);
            assert(order.contains(x));
            let i = order.index_of(x);
            assert(sorted[i] == k);
        }
    }
}

} // verus!
