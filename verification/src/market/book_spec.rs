//! Mathematical model of price levels and of market-order sweeps.

use vstd::prelude::*;
use crate::types::{Order, Side};

verus! {

/// Total quantity of a sequence of orders.
pub open spec fn qty_sum(s: Seq<Order>) -> nat
    decreases s.len(),
{
    if s.len() == 0 {
        0
    } else {
        qty_sum(s.drop_last()) + s.last().quantity as nat
    }
}

/// Quantities add up over concatenation.
pub proof fn lemma_qty_sum_concat(a: Seq<Order>, b: Seq<Order>)
    ensures
        qty_sum(a + b) == qty_sum(a) + qty_sum(b),
    decreases b.len(),
{
    if b.len() == 0 {
        assert(a + b =~= a);
    } else {
        lemma_qty_sum_concat(a, b.drop_last());
        assert((a + b).drop_last() =~= a + b.drop_last());
    }
}

/// The total of a sequence is its head plus the total of its tail.
pub proof fn lemma_qty_sum_front(s: Seq<Order>)
    requires
        s.len() > 0,
    ensures
        qty_sum(s) == s[0].quantity as nat + qty_sum(s.drop_first()),
{
    lemma_qty_sum_concat(seq![s[0]], s.drop_first());
    assert(seq![s[0]] + s.drop_first() =~= s);
    assert(seq![s[0]].drop_last() =~= Seq::<Order>::empty());
    assert(qty_sum(Seq::<Order>::empty()) == 0);
    assert(qty_sum(seq![s[0]]) == s[0].quantity as nat);
}

/// The total of a prefix grows by the next element.
pub proof fn lemma_qty_sum_prefix(s: Seq<Order>, j: int)
    requires
        0 <= j < s.len(),
    ensures
        qty_sum(s.take(j + 1)) == qty_sum(s.take(j)) + s[j].quantity as nat,
{
    assert(s.take(j + 1).drop_last() =~= s.take(j));
}

/// What taking `q` units from the front of a FIFO queue of resting orders
/// yields: the orders filled, each with the quantity it filled, in queue
/// order, and the queue that is left. An order that is only partly filled
/// stays at the head of the queue with the quantity that is left of it.
pub open spec fn take_from_queue(s: Seq<Order>, q: nat) -> (Seq<Order>, Seq<Order>)
    decreases s.len(),
{
    if q == 0 || s.len() == 0 {
        (Seq::empty(), s)
    } else if q < s[0].quantity {
        (
            seq![s[0].with_quantity(q as u64)],
            seq![s[0].with_quantity((s[0].quantity - q) as u64)] + s.drop_first(),
        )
    } else {
        let (t, r) = take_from_queue(s.drop_first(), (q - s[0].quantity) as nat);
        (seq![s[0]] + t, r)
    }
}

/// Quantity is conserved by a take; the filled quantity is the smaller of the
/// request and what the queue holds; a queue is left non-empty only when the
/// request was met in full.
pub proof fn lemma_take_from_queue(s: Seq<Order>, q: nat)
    ensures
        ({
            let (t, r) = take_from_queue(s, q);
            &&& qty_sum(t) + qty_sum(r) == qty_sum(s)
            &&& qty_sum(t) == if q <= qty_sum(s) { q } else { qty_sum(s) }
            &&& r.len() > 0 ==> qty_sum(t) == q
            &&& r.len() <= s.len()
        }),
    decreases s.len(),
{
    if q == 0 || s.len() == 0 {
        assert(qty_sum(Seq::<Order>::empty()) == 0);
    } else {
        lemma_qty_sum_front(s);
        let o = s[0];
        if q < o.quantity {
            let t = seq![o.with_quantity(q as u64)];
            let r = seq![o.with_quantity((o.quantity - q) as u64)] + s.drop_first();
            lemma_qty_sum_front(t);
            lemma_qty_sum_front(r);
            assert(t.drop_first() =~= Seq::<Order>::empty());
            assert(r.drop_first() =~= s.drop_first());
        } else {
            let q2 = (q - o.quantity) as nat;
            lemma_take_from_queue(s.drop_first(), q2);
            let (t2, r2) = take_from_queue(s.drop_first(), q2);
            let t = seq![o] + t2;
            lemma_qty_sum_front(t);
            assert(t.drop_first() =~= t2);
        }
    }
}

/// A price level as seen from outside: its price in ticks and its FIFO queue.
pub type LevelView = (u64, Seq<Order>);

/// `a` is a strictly better price than `b` for a resting order on `side`:
/// higher for bids, lower for asks.
pub open spec fn better_price(side: Side, a: u64, b: u64) -> bool {
    match side {
        Side::Buy => a > b,
        Side::Sell => a < b,
    }
}

/// The levels of one side of a book, best price first: strictly ordered by
/// price, and no level holds an empty queue.
pub open spec fn side_shape(ls: Seq<LevelView>, side: Side) -> bool {
    &&& forall|i: int, j: int| 0 <= i < j < ls.len() ==> better_price(side, #[trigger] ls[i].0, #[trigger] ls[j].0)
    &&& forall|i: int| 0 <= i < ls.len() ==> (#[trigger] ls[i]).1.len() > 0
}

/// Whether a side has a level at price `p`.
pub open spec fn has_level(ls: Seq<LevelView>, p: u64) -> bool {
    exists|i: int| 0 <= i < ls.len() && (#[trigger] ls[i]).0 == p
}

/// The queue resting at price `p` (empty where there is no level).
pub open spec fn queue_at(ls: Seq<LevelView>, p: u64) -> Seq<Order> {
    if has_level(ls, p) {
        ls[choose|i: int| 0 <= i < ls.len() && (#[trigger] ls[i]).0 == p].1
    } else {
        Seq::empty()
    }
}

/// One side of a book as a map from price in ticks to the FIFO queue there.
pub open spec fn level_map(ls: Seq<LevelView>) -> Map<u64, Seq<Order>> {
    Map::new(|p: u64| has_level(ls, p), |p: u64| queue_at(ls, p))
}

/// Total resting quantity of one side of a book.
pub open spec fn side_volume(ls: Seq<LevelView>) -> nat
    decreases ls.len(),
{
    if ls.len() == 0 {
        0
    } else {
        side_volume(ls.drop_last()) + qty_sum(ls.last().1)
    }
}

/// Volumes add up over concatenation of level sequences.
pub proof fn lemma_side_volume_concat(a: Seq<LevelView>, b: Seq<LevelView>)
    ensures
        side_volume(a + b) == side_volume(a) + side_volume(b),
    decreases b.len(),
{
    if b.len() == 0 {
        assert(a + b =~= a);
    } else {
        lemma_side_volume_concat(a, b.drop_last());
        assert((a + b).drop_last() =~= a + b.drop_last());
    }
}

/// The volume of a side is its first level plus the rest.
pub proof fn lemma_side_volume_front(ls: Seq<LevelView>)
    requires
        ls.len() > 0,
    ensures
        side_volume(ls) == qty_sum(ls[0].1) + side_volume(ls.drop_first()),
{
    lemma_side_volume_concat(seq![ls[0]], ls.drop_first());
    assert(seq![ls[0]] + ls.drop_first() =~= ls);
    assert(seq![ls[0]].drop_last() =~= Seq::<LevelView>::empty());
    assert(side_volume(Seq::<LevelView>::empty()) == 0);
    assert(side_volume(seq![ls[0]]) == qty_sum(ls[0].1));
}

/// The volume of a side splits around any level.
pub proof fn lemma_side_volume_split(ls: Seq<LevelView>, i: int)
    requires
        0 <= i < ls.len(),
    ensures
        side_volume(ls) == side_volume(ls.take(i)) + qty_sum(ls[i].1) + side_volume(ls.skip(i + 1)),
{
    lemma_side_volume_concat(ls.take(i), ls.skip(i));
    assert(ls.take(i) + ls.skip(i) =~= ls);
    lemma_side_volume_front(ls.skip(i));
    assert(ls.skip(i).drop_first() =~= ls.skip(i + 1));
}

/// In a well-shaped side the queue at a level's price is that level's queue.
pub proof fn lemma_queue_at_index(ls: Seq<LevelView>, side: Side, i: int)
    requires
        side_shape(ls, side),
        0 <= i < ls.len(),
    ensures
        has_level(ls, ls[i].0),
        queue_at(ls, ls[i].0) == ls[i].1,
{
    assert(has_level(ls, ls[i].0));
    let j = choose|j: int| 0 <= j < ls.len() && (#[trigger] ls[j]).0 == ls[i].0;
    if j < i {
        assert(better_price(side, ls[j].0, ls[i].0));
    } else if i < j {
        assert(better_price(side, ls[i].0, ls[j].0));
    }
}

/// Dropping the best level of a well-shaped side drops its price from the map.
proof fn lemma_level_map_drop_first(ls: Seq<LevelView>, side: Side)
    requires
        side_shape(ls, side),
        ls.len() > 0,
    ensures
        side_shape(ls.drop_first(), side),
        level_map(ls.drop_first()) == level_map(ls).remove(ls[0].0),
{
    let d = ls.drop_first();
    assert forall|a: int, b: int| 0 <= a < b < d.len() implies better_price(side, #[trigger] d[a].0, #[trigger] d[b].0) by {
        assert(d[a] == ls[a + 1] && d[b] == ls[b + 1]);
    }
    assert forall|a: int| 0 <= a < d.len() implies (#[trigger] d[a]).1.len() > 0 by {
        assert(d[a] == ls[a + 1]);
    }
    assert forall|x: u64| #[trigger] has_level(d, x) <==> (has_level(ls, x) && x != ls[0].0) by {
        if has_level(d, x) {
            let a = choose|a: int| 0 <= a < d.len() && (#[trigger] d[a]).0 == x;
            assert(ls[a + 1] == d[a]);
            assert(better_price(side, ls[0].0, ls[a + 1].0));
        }
        if has_level(ls, x) && x != ls[0].0 {
            let j = choose|j: int| 0 <= j < ls.len() && (#[trigger] ls[j]).0 == x;
            assert(d[j - 1] == ls[j]);
        }
    }
    assert forall|x: u64| has_level(d, x) implies #[trigger] queue_at(d, x) == queue_at(ls, x) by {
        let a = choose|a: int| 0 <= a < d.len() && (#[trigger] d[a]).0 == x;
        lemma_queue_at_index(d, side, a);
        assert(ls[a + 1] == d[a]);
        lemma_queue_at_index(ls, side, a + 1);
    }
    assert(level_map(d) =~= level_map(ls).remove(ls[0].0));
}

/// A well-shaped side is determined by its map from prices to queues: two
/// sides of the same kind with the same levels are the same sequence.
pub proof fn lemma_side_determined_by_levels(a: Seq<LevelView>, b: Seq<LevelView>, side: Side)
    requires
        side_shape(a, side),
        side_shape(b, side),
        level_map(a) == level_map(b),
    ensures
        a == b,
    decreases a.len(),
{
    if a.len() == 0 {
        if b.len() > 0 {
            assert(has_level(b, b[0].0));
            assert(level_map(b).dom().contains(b[0].0));
        }
        assert(a =~= b);
    } else {
        let p = a[0].0;
        assert(has_level(a, p));
        assert(level_map(a).dom().contains(p));
        assert(has_level(b, p));
        let j = choose|j: int| 0 <= j < b.len() && (#[trigger] b[j]).0 == p;
        let q = b[0].0;
        assert(has_level(b, q));
        assert(level_map(b).dom().contains(q));
        assert(has_level(a, q));
        let k = choose|k: int| 0 <= k < a.len() && (#[trigger] a[k]).0 == q;
        if j > 0 {
            assert(better_price(side, b[0].0, b[j].0));
            if k > 0 {
                assert(better_price(side, a[0].0, a[k].0));
            }
        }
        assert(q == p);
        lemma_queue_at_index(a, side, 0);
        lemma_queue_at_index(b, side, 0);
        assert(level_map(a)[p] == level_map(b)[p]);
        lemma_level_map_drop_first(a, side);
        lemma_level_map_drop_first(b, side);
        lemma_side_determined_by_levels(a.drop_first(), b.drop_first(), side);
        assert(a =~= seq![a[0]] + a.drop_first());
        assert(b =~= seq![b[0]] + b.drop_first());
    }
}

/// Placing a new level with a single order at a position where it keeps the
/// side ordered adds that price to the map and the order's quantity to the
/// volume.
pub proof fn lemma_insert_level(ls: Seq<LevelView>, side: Side, i: int, p: u64, o: Order)
    requires
        side_shape(ls, side),
        0 <= i <= ls.len(),
        forall|j: int| 0 <= j < i ==> better_price(side, #[trigger] ls[j].0, p),
        i < ls.len() ==> better_price(side, p, ls[i].0),
    ensures
        side_shape(ls.insert(i, (p, seq![o])), side),
        level_map(ls.insert(i, (p, seq![o]))) == level_map(ls).insert(p, queue_at(ls, p).push(o)),
        side_volume(ls.insert(i, (p, seq![o]))) == side_volume(ls) + o.quantity,
{
    let n = ls.insert(i, (p, seq![o]));
    assert forall|a: int, b: int| 0 <= a < b < n.len() implies better_price(side, #[trigger] n[a].0, #[trigger] n[b].0) by {
        if a < i && b < i {
            assert(n[a] == ls[a] && n[b] == ls[b]);
        } else if a < i && b == i {
        } else if a < i {
            assert(n[a] == ls[a] && n[b] == ls[b - 1]);
            assert(better_price(side, ls[a].0, ls[b - 1].0));
        } else if a == i {
            assert(n[b] == ls[b - 1]);
            if b - 1 > i {
                assert(better_price(side, ls[i].0, ls[b - 1].0));
            }
        } else {
            assert(n[a] == ls[a - 1] && n[b] == ls[b - 1]);
        }
    }
    assert forall|a: int| 0 <= a < n.len() implies (#[trigger] n[a]).1.len() > 0 by {
        if a < i {
            assert(n[a] == ls[a]);
        } else if a > i {
            assert(n[a] == ls[a - 1]);
        }
    }
    assert(!has_level(ls, p)) by {
        if has_level(ls, p) {
            let j = choose|j: int| 0 <= j < ls.len() && (#[trigger] ls[j]).0 == p;
            if j < i {
                assert(better_price(side, ls[j].0, p));
            } else {
                if j > i {
                    assert(better_price(side, ls[i].0, ls[j].0));
                }
            }
        }
    }
    assert(queue_at(ls, p) =~= Seq::<Order>::empty());
    assert forall|x: u64| #[trigger] has_level(n, x) <==> (has_level(ls, x) || x == p) by {
        if has_level(n, x) {
            let a = choose|a: int| 0 <= a < n.len() && (#[trigger] n[a]).0 == x;
            if a < i {
                assert(ls[a] == n[a]);
            } else if a > i {
                assert(ls[a - 1] == n[a]);
            }
        }
        if has_level(ls, x) {
            let j = choose|j: int| 0 <= j < ls.len() && (#[trigger] ls[j]).0 == x;
            if j < i {
                assert(n[j] == ls[j]);
            } else {
                assert(n[j + 1] == ls[j]);
            }
        }
        if x == p {
            assert(n[i].0 == p);
        }
    }
    assert forall|x: u64| has_level(n, x) implies #[trigger] queue_at(n, x)
        == (if x == p { queue_at(ls, p).push(o) } else { queue_at(ls, x) }) by {
        let a = choose|a: int| 0 <= a < n.len() && (#[trigger] n[a]).0 == x;
        lemma_queue_at_index(n, side, a);
        if a < i {
            assert(n[a] == ls[a]);
            lemma_queue_at_index(ls, side, a);
        } else if a > i {
            assert(n[a] == ls[a - 1]);
            lemma_queue_at_index(ls, side, a - 1);
        } else {
            assert(seq![o] =~= Seq::<Order>::empty().push(o));
        }
    }
    assert(level_map(n) =~= level_map(ls).insert(p, queue_at(ls, p).push(o)));
    lemma_side_volume_split(n, i);
    assert(n.take(i) =~= ls.take(i));
    assert(n.skip(i + 1) =~= ls.skip(i));
    lemma_side_volume_concat(ls.take(i), ls.skip(i));
    assert(ls.take(i) + ls.skip(i) =~= ls);
    lemma_qty_sum_front(seq![o]);
    assert(seq![o].drop_first() =~= Seq::<Order>::empty());
}

/// Appending an order to the queue of an existing level adds it to the back
/// of that price's queue and its quantity to the volume.
pub proof fn lemma_append_to_level(ls: Seq<LevelView>, side: Side, i: int, o: Order)
    requires
        side_shape(ls, side),
        0 <= i < ls.len(),
    ensures
        side_shape(ls.update(i, (ls[i].0, ls[i].1.push(o))), side),
        level_map(ls.update(i, (ls[i].0, ls[i].1.push(o))))
            == level_map(ls).insert(ls[i].0, queue_at(ls, ls[i].0).push(o)),
        side_volume(ls.update(i, (ls[i].0, ls[i].1.push(o)))) == side_volume(ls) + o.quantity,
{
    let p = ls[i].0;
    let n = ls.update(i, (p, ls[i].1.push(o)));
    assert forall|a: int, b: int| 0 <= a < b < n.len() implies better_price(side, #[trigger] n[a].0, #[trigger] n[b].0) by {
        assert(n[a].0 == ls[a].0 && n[b].0 == ls[b].0);
    }
    assert forall|a: int| 0 <= a < n.len() implies (#[trigger] n[a]).1.len() > 0 by {
        if a != i {
            assert(n[a] == ls[a]);
        }
    }
    lemma_queue_at_index(ls, side, i);
    assert forall|x: u64| #[trigger] has_level(n, x) <==> has_level(ls, x) by {
        if has_level(n, x) {
            let a = choose|a: int| 0 <= a < n.len() && (#[trigger] n[a]).0 == x;
            assert(ls[a].0 == x);
        }
        if has_level(ls, x) {
            let a = choose|a: int| 0 <= a < ls.len() && (#[trigger] ls[a]).0 == x;
            assert(n[a].0 == x);
        }
    }
    assert forall|x: u64| has_level(n, x) implies #[trigger] queue_at(n, x)
        == (if x == p { queue_at(ls, p).push(o) } else { queue_at(ls, x) }) by {
        let a = choose|a: int| 0 <= a < n.len() && (#[trigger] n[a]).0 == x;
        lemma_queue_at_index(n, side, a);
        if a != i {
            assert(n[a] == ls[a]);
            lemma_queue_at_index(ls, side, a);
        }
    }
    assert(level_map(n) =~= level_map(ls).insert(p, queue_at(ls, p).push(o)));
    lemma_side_volume_split(n, i);
    lemma_side_volume_split(ls, i);
    assert(n.take(i) =~= ls.take(i));
    assert(n.skip(i + 1) =~= ls.skip(i + 1));
    assert(ls[i].1.push(o).drop_last() =~= ls[i].1);
}

/// A fill: the price of the level it came from and the resting order with
/// the quantity it filled.
pub type Fill = (u64, Order);

/// The resting orders of a sequence of fills.
pub open spec fn fill_orders(f: Seq<Fill>) -> Seq<Order> {
    f.map_values(|x: Fill| x.1)
}

/// Total quantity of a sequence of fills.
pub open spec fn filled_qty(f: Seq<Fill>) -> nat {
    qty_sum(fill_orders(f))
}

/// What a market order for `q` units does to the opposite side of the book
/// (levels best price first): it takes from the best level's queue in FIFO
/// order, removes a level it empties and goes on to the next one, and stops
/// when `q` is met or the side is empty. The result is the fills in the order
/// they were made and the levels that are left.
pub open spec fn sweep(ls: Seq<LevelView>, q: nat) -> (Seq<Fill>, Seq<LevelView>)
    decreases ls.len(),
{
    if q == 0 || ls.len() == 0 {
        (Seq::empty(), ls)
    } else {
        let p = ls[0].0;
        let (taken, rest) = take_from_queue(ls[0].1, q);
        let fills = taken.map_values(|o: Order| (p, o));
        if rest.len() == 0 {
            let (f2, r2) = sweep(ls.drop_first(), (q - qty_sum(taken)) as nat);
            (fills + f2, r2)
        } else {
            (fills, ls.update(0, (p, rest)))
        }
    }
}

/// Time priority within a price level: a take fills orders strictly from the
/// front of the queue. Every filled order is the resting order at the same
/// position with at most its quantity; all but the last are filled in full;
/// and the queue that is left is the untouched tail, headed by what remains
/// of a partly filled order if there is one.
pub proof fn lemma_take_is_fifo(s: Seq<Order>, q: nat)
    ensures
        ({
            let (t, r) = take_from_queue(s, q);
            &&& t.len() <= s.len()
            &&& forall|i: int| 0 <= i < t.len() ==> (#[trigger] t[i]).with_quantity(s[i].quantity) == s[i]
                && t[i].quantity <= s[i].quantity
            &&& forall|i: int| 0 <= i < t.len() - 1 ==> #[trigger] t[i] == s[i]
            &&& (r == s.skip(t.len() as int) || (t.len() > 0 && t[t.len() - 1].quantity < s[t.len() - 1].quantity
                && r == seq![s[t.len() - 1].with_quantity((s[t.len() - 1].quantity - t[t.len() - 1].quantity) as u64)]
                + s.skip(t.len() as int)))
        }),
    decreases s.len(),
{
    if q == 0 || s.len() == 0 {
        assert(s.skip(0) =~= s);
    } else if q < s[0].quantity {
        assert(s.skip(1) =~= s.drop_first());
    } else {
        let q2 = (q - s[0].quantity) as nat;
        lemma_take_is_fifo(s.drop_first(), q2);
        let (t2, r2) = take_from_queue(s.drop_first(), q2);
        let t = seq![s[0]] + t2;
        assert forall|i: int| 0 <= i < t.len() implies (#[trigger] t[i]).with_quantity(s[i].quantity) == s[i]
            && t[i].quantity <= s[i].quantity by {
            if i > 0 {
                assert(t[i] == t2[i - 1]);
                assert(s[i] == s.drop_first()[i - 1]);
            }
        }
        assert forall|i: int| 0 <= i < t.len() - 1 implies #[trigger] t[i] == s[i] by {
            if i > 0 {
                assert(t[i] == t2[i - 1]);
                assert(s[i] == s.drop_first()[i - 1]);
            }
        }
        assert(s.drop_first().skip(t2.len() as int) =~= s.skip(t.len() as int));
        if t2.len() > 0 {
            assert(t[t.len() - 1] == t2[t2.len() - 1]);
            assert(s[t.len() - 1] == s.drop_first()[t2.len() - 1]);
        }
    }
}

/// Quantity conservation for a market order: what it fills plus what is left
/// on the side equals what the side held, and it fills the smaller of its
/// quantity and the side's volume.
pub proof fn lemma_sweep_conserves(ls: Seq<LevelView>, q: nat)
    ensures
        ({
            let (f, r) = sweep(ls, q);
            &&& filled_qty(f) + side_volume(r) == side_volume(ls)
            &&& filled_qty(f) == if q <= side_volume(ls) { q } else { side_volume(ls) }
        }),
    decreases ls.len(),
{
    let (f, r) = sweep(ls, q);
    if q == 0 || ls.len() == 0 {
        assert(fill_orders(f) =~= Seq::<Order>::empty());
        assert(side_volume(Seq::<LevelView>::empty()) == 0);
    } else {
        let p = ls[0].0;
        let (t, rst) = take_from_queue(ls[0].1, q);
        lemma_take_from_queue(ls[0].1, q);
        lemma_side_volume_front(ls);
        let fm = t.map_values(|o: Order| (p, o));
        assert(fill_orders(fm) =~= t);
        if rst.len() == 0 {
            let q2 = (q - qty_sum(t)) as nat;
            lemma_sweep_conserves(ls.drop_first(), q2);
            let (f2, r2) = sweep(ls.drop_first(), q2);
            assert(fill_orders(fm + f2) =~= t + fill_orders(f2));
            lemma_qty_sum_concat(t, fill_orders(f2));
            assert(qty_sum(rst) == 0);
        } else {
            let u = ls.update(0, (p, rst));
            lemma_side_volume_front(u);
            assert(u.drop_first() =~= ls.drop_first());
        }
    }
}

/// Price priority for a market order against a side ordered best price
/// first: fills come in order of worsening price, every fill is at a price the
/// side offered, no level left on the side is at a strictly better price than
/// any fill, and the side stays ordered.
pub proof fn lemma_sweep_price_priority(ls: Seq<LevelView>, side: Side, q: nat)
    requires
        side_shape(ls, side),
    ensures
        ({
            let (f, r) = sweep(ls, q);
            &&& side_shape(r, side)
            &&& forall|i: int| 0 <= i < f.len() ==> has_level(ls, #[trigger] f[i].0)
            &&& forall|j: int| 0 <= j < r.len() ==> has_level(ls, #[trigger] r[j].0)
            &&& forall|i: int, k: int| 0 <= i < k < f.len() ==> !better_price(side, #[trigger] f[k].0, #[trigger] f[i].0)
            &&& forall|i: int, j: int| 0 <= i < f.len() && 0 <= j < r.len() ==> !better_price(side, #[trigger] r[j].0, #[trigger] f[i].0)
        }),
    decreases ls.len(),
{
    let (f, r) = sweep(ls, q);
    if q == 0 || ls.len() == 0 {
        assert forall|j: int| 0 <= j < r.len() implies has_level(ls, #[trigger] r[j].0) by {
            assert(ls[j].0 == r[j].0);
        }
    } else {
        let p = ls[0].0;
        let (t, rst) = take_from_queue(ls[0].1, q);
        let fm = t.map_values(|o: Order| (p, o));
        let d = ls.drop_first();
        assert(side_shape(d, side)) by {
            assert forall|a: int, b: int| 0 <= a < b < d.len() implies better_price(side, #[trigger] d[a].0, #[trigger] d[b].0) by {
                assert(d[a] == ls[a + 1] && d[b] == ls[b + 1]);
            }
            assert forall|a: int| 0 <= a < d.len() implies (#[trigger] d[a]).1.len() > 0 by {
                assert(d[a] == ls[a + 1]);
            }
        }
        assert forall|x: u64| has_level(d, x) implies has_level(ls, x) && better_price(side, p, x) by {
            let a = choose|a: int| 0 <= a < d.len() && (#[trigger] d[a]).0 == x;
            assert(ls[a + 1] == d[a]);
            assert(better_price(side, ls[0].0, ls[a + 1].0));
        }
        assert(has_level(ls, p)) by {
            assert(ls[0].0 == p);
        }
        if rst.len() == 0 {
            let q2 = (q - qty_sum(t)) as nat;
            lemma_sweep_price_priority(d, side, q2);
            let (f2, r2) = sweep(d, q2);
            assert(f =~= fm + f2);
            assert forall|i: int| 0 <= i < f.len() implies has_level(ls, #[trigger] f[i].0) by {
                if i >= fm.len() {
                    assert(f[i] == f2[i - fm.len()]);
                }
            }
            assert forall|i: int, k: int| 0 <= i < k < f.len() implies !better_price(side, #[trigger] f[k].0, #[trigger] f[i].0) by {
                if k >= fm.len() {
                    assert(f[k] == f2[k - fm.len()]);
                    assert(has_level(d, f2[k - fm.len()].0));
                    if i >= fm.len() {
                        assert(f[i] == f2[i - fm.len()]);
                    }
                }
            }
            assert forall|i: int, j: int| 0 <= i < f.len() && 0 <= j < r.len() implies !better_price(side, #[trigger] r[j].0, #[trigger] f[i].0) by {
                assert(has_level(d, r2[j].0));
                if i >= fm.len() {
                    assert(f[i] == f2[i - fm.len()]);
                }
            }
        } else {
            let u = ls.update(0, (p, rst));
            assert(r == u);
            assert forall|a: int, b: int| 0 <= a < b < u.len() implies better_price(side, #[trigger] u[a].0, #[trigger] u[b].0) by {
                assert(u[a].0 == ls[a].0 && u[b].0 == ls[b].0);
            }
            assert forall|a: int| 0 <= a < u.len() implies (#[trigger] u[a]).1.len() > 0 by {
                if a > 0 {
                    assert(u[a] == ls[a]);
                }
            }
            assert forall|j: int| 0 <= j < r.len() implies has_level(ls, #[trigger] r[j].0) by {
                assert(ls[j].0 == r[j].0);
            }
            assert forall|i: int, j: int| 0 <= i < f.len() && 0 <= j < r.len() implies !better_price(side, #[trigger] r[j].0, #[trigger] f[i].0) by {
                if j > 0 {
                    assert(better_price(side, ls[0].0, ls[j].0));
                }
            }
        }
    }
}

/// Resting a limit order at price `p` moves the best price of its side to
/// `p` when `p` is strictly better (or the side was empty) and leaves it
/// unchanged otherwise.
pub proof fn lemma_rest_sets_best_price(
    before: Seq<LevelView>,
    after: Seq<LevelView>,
    side: Side,
    p: u64,
    o: Order,
)
    requires
        side_shape(before, side),
        side_shape(after, side),
        level_map(after) == level_map(before).insert(p, queue_at(before, p).push(o)),
    ensures
        after.len() > 0,
        after[0].0 == if before.len() == 0 || better_price(side, p, before[0].0) {
            p
        } else {
            before[0].0
        },
{
    assert(level_map(after).dom().contains(p));
    assert(has_level(after, p));
    let i = choose|i: int| 0 <= i < after.len() && (#[trigger] after[i]).0 == p;
    let b = after[0].0;
    assert(has_level(after, b)) by {
        assert(after[0].0 == b);
    }
    assert(level_map(after).dom().contains(b));
    if i > 0 {
        assert(better_price(side, after[0].0, after[i].0));
    }
    if before.len() > 0 {
        let b0 = before[0].0;
        assert(has_level(before, b0)) by {
            assert(before[0].0 == b0);
        }
        assert(level_map(after).dom().contains(b0));
        assert(has_level(after, b0));
        let k = choose|k: int| 0 <= k < after.len() && (#[trigger] after[k]).0 == b0;
        if k > 0 {
            assert(better_price(side, after[0].0, after[k].0));
        }
        if b != p {
            assert(has_level(before, b));
            let j = choose|j: int| 0 <= j < before.len() && (#[trigger] before[j]).0 == b;
            if j > 0 {
                assert(better_price(side, before[0].0, before[j].0));
            }
        }
    } else {
        if b != p {
            assert(has_level(before, b));
        }
    }
}

/// Every order resting on the side has a positive quantity.
pub open spec fn quantities_positive(ls: Seq<LevelView>) -> bool {
    forall|i: int, j: int| 0 <= i < ls.len() && 0 <= j < ls[i].1.len() ==> #[trigger] ls[i].1[j].quantity > 0
}

/// On a well-shaped side whose resting quantities are positive, there is a
/// best price exactly when the side holds volume.
pub proof fn lemma_levels_iff_volume(ls: Seq<LevelView>, side: Side)
    requires
        side_shape(ls, side),
        quantities_positive(ls),
    ensures
        ls.len() > 0 <==> side_volume(ls) > 0,
{
    if ls.len() > 0 {
        lemma_side_volume_front(ls);
        lemma_qty_sum_front(ls[0].1);
        assert(ls[0].1[0].quantity > 0);
    } else {
        assert(side_volume(ls) == 0);
    }
}

/// Resting an order of positive quantity keeps the resting quantities of its
/// side positive.
pub proof fn lemma_rest_keeps_quantities_positive(
    before: Seq<LevelView>,
    after: Seq<LevelView>,
    side: Side,
    p: u64,
    o: Order,
)
    requires
        side_shape(before, side),
        side_shape(after, side),
        quantities_positive(before),
        o.quantity > 0,
        level_map(after) == level_map(before).insert(p, queue_at(before, p).push(o)),
    ensures
        quantities_positive(after),
{
    assert forall|i: int, j: int| 0 <= i < after.len() && 0 <= j < after[i].1.len() implies #[trigger] after[i].1[j].quantity > 0 by {
        let x = after[i].0;
        lemma_queue_at_index(after, side, i);
        assert(level_map(after).dom().contains(x));
        assert(level_map(after)[x] == after[i].1);
        if x == p {
            if has_level(before, p) {
                let k = choose|k: int| 0 <= k < before.len() && (#[trigger] before[k]).0 == p;
                lemma_queue_at_index(before, side, k);
                if j < before[k].1.len() {
                    assert(after[i].1[j] == before[k].1[j]);
                }
            }
        } else {
            assert(level_map(before).dom().contains(x));
            assert(has_level(before, x));
            let k = choose|k: int| 0 <= k < before.len() && (#[trigger] before[k]).0 == x;
            lemma_queue_at_index(before, side, k);
            assert(after[i].1 == before[k].1);
        }
    }
}

/// A market order keeps the resting quantities of the side it sweeps positive:
/// a partly filled order stays with what is left of it, which is more than
/// nothing.
pub proof fn lemma_sweep_keeps_quantities_positive(ls: Seq<LevelView>, q: nat)
    requires
        quantities_positive(ls),
    ensures
        quantities_positive(sweep(ls, q).1),
    decreases ls.len(),
{
    if q == 0 || ls.len() == 0 {
    } else {
        let p = ls[0].0;
        let s = ls[0].1;
        let (t, rst) = take_from_queue(s, q);
        let d = ls.drop_first();
        assert(quantities_positive(d)) by {
            assert forall|i: int, j: int| 0 <= i < d.len() && 0 <= j < d[i].1.len() implies #[trigger] d[i].1[j].quantity > 0 by {
                assert(d[i] == ls[i + 1]);
            }
        }
        if rst.len() == 0 {
            lemma_sweep_keeps_quantities_positive(d, (q - qty_sum(t)) as nat);
        } else {
            lemma_take_is_fifo(s, q);
            let u = ls.update(0, (p, rst));
            assert forall|i: int, j: int| 0 <= i < u.len() && 0 <= j < u[i].1.len() implies #[trigger] u[i].1[j].quantity > 0 by {
                if i > 0 {
                    assert(u[i] == ls[i]);
                } else {
                    let k = t.len() as int;
                    if rst == s.skip(k) {
                        assert(rst[j] == s[j + k]);
                        assert(ls[0].1[j + k].quantity > 0);
                    } else if j > 0 {
                        assert(rst[j] == s.skip(k)[j - 1]);
                        assert(ls[0].1[j - 1 + k].quantity > 0);
                    }
                }
            }
        }
    }
}

/// A take that leaves the queue empty took every order in full.
proof fn lemma_take_all(s: Seq<Order>, q: nat)
    requires
        take_from_queue(s, q).1.len() == 0,
    ensures
        take_from_queue(s, q).0 == s,
    decreases s.len(),
{
    if q == 0 || s.len() == 0 {
        assert(s =~= Seq::<Order>::empty());
    } else if q < s[0].quantity {
    } else {
        lemma_take_all(s.drop_first(), (q - s[0].quantity) as nat);
        assert(seq![s[0]] + s.drop_first() =~= s);
    }
}

/// The resting orders of a side in the order a market order reaches them:
/// best level first and, within a level, oldest first; each paired with its
/// level's price.
pub open spec fn priority_order(ls: Seq<LevelView>) -> Seq<Fill>
    decreases ls.len(),
{
    if ls.len() == 0 {
        Seq::empty()
    } else {
        ls[0].1.map_values(|o: Order| (ls[0].0, o)) + priority_order(ls.drop_first())
    }
}

/// Price-time priority of the fills: the i-th fill of a market order is the
/// i-th resting order in priority order, at its level's price, with at most
/// that order's quantity; every fill but the last takes its order in full.
pub proof fn lemma_sweep_fills_in_priority_order(ls: Seq<LevelView>, q: nat)
    ensures
        ({
            let f = sweep(ls, q).0;
            let po = priority_order(ls);
            &&& f.len() <= po.len()
            &&& forall|i: int| 0 <= i < f.len() ==> (#[trigger] f[i]).0 == po[i].0
                && f[i].1.with_quantity(po[i].1.quantity) == po[i].1
                && f[i].1.quantity <= po[i].1.quantity
            &&& forall|i: int| 0 <= i < f.len() - 1 ==> #[trigger] f[i] == po[i]
        }),
    decreases ls.len(),
{
    let f = sweep(ls, q).0;
    let po = priority_order(ls);
    if q == 0 || ls.len() == 0 {
    } else {
        let p = ls[0].0;
        let s = ls[0].1;
        let (t, rst) = take_from_queue(s, q);
        lemma_take_is_fifo(s, q);
        let fm = t.map_values(|o: Order| (p, o));
        let sm = s.map_values(|o: Order| (p, o));
        let d = ls.drop_first();
        assert(po == sm + priority_order(d));
        if rst.len() == 0 {
            lemma_take_all(s, q);
            let q2 = (q - qty_sum(t)) as nat;
            lemma_sweep_fills_in_priority_order(d, q2);
            let f2 = sweep(d, q2).0;
            let pd = priority_order(d);
            assert(fm =~= sm);
            assert(f =~= sm + f2);
            assert forall|i: int| 0 <= i < f.len() implies (#[trigger] f[i]).0 == po[i].0
                && f[i].1.with_quantity(po[i].1.quantity) == po[i].1
                && f[i].1.quantity <= po[i].1.quantity by {
                if i < sm.len() {
                    assert(f[i] == sm[i]);
                    assert(po[i] == sm[i]);
                } else {
                    assert(f[i] == f2[i - sm.len()]);
                    assert(po[i] == pd[i - sm.len()]);
                }
            }
            assert forall|i: int| 0 <= i < f.len() - 1 implies #[trigger] f[i] == po[i] by {
                if i < sm.len() {
                    assert(f[i] == sm[i]);
                    assert(po[i] == sm[i]);
                } else {
                    assert(f[i] == f2[i - sm.len()]);
                    assert(po[i] == pd[i - sm.len()]);
                }
            }
        } else {
            assert(f =~= fm);
            assert forall|i: int| 0 <= i < f.len() implies (#[trigger] f[i]).0 == po[i].0
                && f[i].1.with_quantity(po[i].1.quantity) == po[i].1
                && f[i].1.quantity <= po[i].1.quantity by {
                assert(f[i] == (p, t[i]));
                assert(po[i] == sm[i]);
            }
            assert forall|i: int| 0 <= i < f.len() - 1 implies #[trigger] f[i] == po[i] by {
                assert(f[i] == (p, t[i]));
                assert(po[i] == sm[i]);
            }
        }
    }
}

/// `x` is a fill of a resting order of the side `ls`: its price is that of
/// the order's level and it is that order, bar its quantity.
pub open spec fn fill_of_resting_order(ls: Seq<LevelView>, x: Fill) -> bool {
    exists|l: int, j: int|
        #![trigger ls[l].1[j]]
        0 <= l < ls.len() && 0 <= j < ls[l].1.len() && x.0 == ls[l].0 && x.1.with_quantity(
            ls[l].1[j].quantity,
        ) == ls[l].1[j]
}

/// Every fill of a market order is of an order that rested on the side it
/// swept, at that order's price.
pub proof fn lemma_sweep_fills_resting_orders(ls: Seq<LevelView>, q: nat)
    ensures
        forall|i: int| 0 <= i < sweep(ls, q).0.len() ==> fill_of_resting_order(ls, #[trigger] sweep(ls, q).0[i]),
    decreases ls.len(),
{
    let f = sweep(ls, q).0;
    if q == 0 || ls.len() == 0 {
    } else {
        let p = ls[0].0;
        let s = ls[0].1;
        let (t, rst) = take_from_queue(s, q);
        lemma_take_is_fifo(s, q);
        let fm = t.map_values(|o: Order| (p, o));
        assert forall|i: int| 0 <= i < fm.len() implies fill_of_resting_order(ls, #[trigger] fm[i]) by {
            assert(fm[i] == (p, t[i]));
            assert(t[i].with_quantity(s[i].quantity) == s[i]);
            assert(ls[0].1[i] == s[i]);
        }
        if rst.len() == 0 {
            let d = ls.drop_first();
            let q2 = (q - qty_sum(t)) as nat;
            lemma_sweep_fills_resting_orders(d, q2);
            let f2 = sweep(d, q2).0;
            assert(f =~= fm + f2);
            assert forall|i: int| 0 <= i < f.len() implies fill_of_resting_order(ls, #[trigger] f[i]) by {
                if i < fm.len() {
                    assert(f[i] == fm[i]);
                } else {
                    let x = f2[i - fm.len()];
                    assert(f[i] == x);
                    assert(fill_of_resting_order(d, x));
                    let (l, j) = choose|l: int, j: int|
                        #![trigger d[l].1[j]]
                        0 <= l < d.len() && 0 <= j < d[l].1.len() && x.0 == d[l].0 && x.1.with_quantity(
                            d[l].1[j].quantity,
                        ) == d[l].1[j];
                    assert(d[l] == ls[l + 1]);
                    assert(ls[l + 1].1[j] == d[l].1[j]);
                }
            }
        } else {
            assert(f =~= fm);
        }
    }
}

/// Time priority is kept in the book: after a market order the side left is
/// an untouched tail of the levels it had, headed by the level the order
/// stopped in, whose queue is the untouched tail of that level's queue headed
/// by the order it stopped at, with at most that order's quantity.
pub proof fn lemma_sweep_keeps_queue_order(ls: Seq<LevelView>, side: Side, q: nat)
    requires
        side_shape(ls, side),
    ensures
        ({
            let r = sweep(ls, q).1;
            r.len() == 0 || exists|k: int, m: int|
                #![trigger ls[k].1[m]]
                {
                    &&& 0 <= k < ls.len()
                    &&& 0 <= m < ls[k].1.len()
                    &&& r.drop_first() == ls.skip(k + 1)
                    &&& r[0].0 == ls[k].0
                    &&& r[0].1.len() > 0
                    &&& r[0].1.drop_first() == ls[k].1.skip(m + 1)
                    &&& r[0].1[0].with_quantity(ls[k].1[m].quantity) == ls[k].1[m]
                    &&& r[0].1[0].quantity <= ls[k].1[m].quantity
                }
        }),
    decreases ls.len(),
{
    let r = sweep(ls, q).1;
    if q == 0 || ls.len() == 0 {
        if ls.len() > 0 {
            assert(ls[0].1.len() > 0);
            assert(r.drop_first() =~= ls.skip(1));
            assert(r[0].1.drop_first() =~= ls[0].1.skip(1));
            assert(r[0].1[0] == ls[0].1[0]);
        }
    } else {
        let p = ls[0].0;
        let s = ls[0].1;
        let (t, rst) = take_from_queue(s, q);
        let d = ls.drop_first();
        lemma_level_map_drop_first(ls, side);
        if rst.len() == 0 {
            let q2 = (q - qty_sum(t)) as nat;
            lemma_sweep_keeps_queue_order(d, side, q2);
            if r.len() > 0 {
                let (k, m) = choose|k: int, m: int|
                    #![trigger d[k].1[m]]
                    {
                        &&& 0 <= k < d.len()
                        &&& 0 <= m < d[k].1.len()
                        &&& r.drop_first() == d.skip(k + 1)
                        &&& r[0].0 == d[k].0
                        &&& r[0].1.len() > 0
                        &&& r[0].1.drop_first() == d[k].1.skip(m + 1)
                        &&& r[0].1[0].with_quantity(d[k].1[m].quantity) == d[k].1[m]
                        &&& r[0].1[0].quantity <= d[k].1[m].quantity
                    };
                assert(d[k] == ls[k + 1]);
                assert(d.skip(k + 1) =~= ls.skip(k + 2));
                assert(ls[k + 1].1[m] == d[k].1[m]);
            }
        } else {
            lemma_take_is_fifo(s, q);
            let tl = t.len() as int;
            assert(r == ls.update(0, (p, rst)));
            assert(r.drop_first() =~= ls.skip(1));
            if rst == s.skip(tl) {
                assert(rst.drop_first() =~= s.skip(tl + 1));
                assert(rst[0] == s[tl]);
                assert(ls[0].1[tl] == s[tl]);
            } else {
                let m = tl - 1;
                assert(rst.drop_first() =~= s.skip(m + 1));
                assert(ls[0].1[m] == s[m]);
            }
        }
    }
}

} // verus!
