//! Position bookkeeping of an agent's portfolio: one signed quantity per
//! symbol (negative for a short position).

use vstd::prelude::*;
use crate::text::str_eq;

verus! {

/// A position as seen from outside: symbol and signed quantity.
pub type PositionView = (Seq<char>, i64);

/// The index of the position held in `symbol`, if any.
pub open spec fn position_index(ps: Seq<PositionView>, symbol: Seq<char>) -> Option<int> {
    if exists|i: int| 0 <= i < ps.len() && (#[trigger] ps[i]).0 == symbol {
        Some(choose|i: int| 0 <= i < ps.len() && (#[trigger] ps[i]).0 == symbol)
    } else {
        None
    }
}

/// The quantity held in `symbol` (zero where there is no position).
pub open spec fn quantity_held(ps: Seq<PositionView>, symbol: Seq<char>) -> int {
    match position_index(ps, symbol) {
        Some(i) => ps[i].1 as int,
        None => 0,
    }
}

/// At most one position per symbol, and no position of quantity zero.
pub open spec fn positions_wf(ps: Seq<PositionView>) -> bool {
    &&& forall|i: int, j: int| 0 <= i < j < ps.len() ==> (#[trigger] ps[i]).0 != (#[trigger] ps[j]).0
    &&& forall|i: int| 0 <= i < ps.len() ==> (#[trigger] ps[i]).1 != 0
}

/// How a fill changed the positions, so that per-position data kept beside
/// them (such as an average entry price) can follow.
#[derive(Debug, Clone, Copy, PartialEq, Eq, Structural)]
pub enum PositionChange {
    /// Nothing changed: no position and a zero quantity change.
    Unchanged,
    /// A new position was appended at the end.
    Opened,
    /// The position at `index`, which held `previous`, got a new quantity.
    Resized { index: usize, previous: i64 },
    /// The position at `index` went to zero and was removed; later positions
    /// moved down by one.
    Closed { index: usize },
}

/// One position.
#[derive(Debug)]
pub struct Holding {
    pub symbol: String,
    pub quantity: i64,
}

/// The positions of a portfolio, in the order they were opened.
#[derive(Debug)]
pub struct Holdings {
    positions: Vec<Holding>,
}

impl Holdings {
    /// The positions as (symbol, quantity) pairs.
    pub closed spec fn view_positions(&self) -> Seq<PositionView> {
        self.positions@.map_values(|h: Holding| (h.symbol@, h.quantity))
    }

    pub open spec fn wf(&self) -> bool {
        positions_wf(self.view_positions())
    }

    /// No positions.
    pub fn new() -> (r: Holdings)
        ensures
            r.wf(),
            r.view_positions() == Seq::<PositionView>::empty(),
    {
        let r = Holdings { positions: Vec::new() };
        proof {
            assert(r.view_positions() =~= Seq::<PositionView>::empty());
        }
        r
    }

    /// Number of open positions.
    pub fn len(&self) -> (r: usize)
        ensures
            r == self.view_positions().len(),
    {
        self.positions.len()
    }

    /// The position at `index`.
    pub fn get(&self, index: usize) -> (r: &Holding)
        requires
            index < self.view_positions().len(),
        ensures
            (r.symbol@, r.quantity) == self.view_positions()[index as int],
    {
        &self.positions[index]
    }

    /// Index of the position held in `symbol`.
    pub fn find(&self, symbol: &str) -> (r: Option<usize>)
        requires
            self.wf(),
        ensures
            match r {
                Some(i) => {
                    &&& i < self.view_positions().len()
                    &&& self.view_positions()[i as int].0 == symbol@
                    &&& position_index(self.view_positions(), symbol@) == Some(i as int)
                },
                None => position_index(self.view_positions(), symbol@) is None,
            },
    {
        let ghost ps = self.view_positions();
        let n = self.positions.len();
        let mut i: usize = 0;
        while i < n
            invariant
                n == ps.len(),
                ps == self.view_positions(),
                positions_wf(ps),
                i <= n,
                forall|j: int| 0 <= j < i ==> (#[trigger] ps[j]).0 != symbol@,
            decreases n - i,
        {
            if str_eq(self.positions[i].symbol.as_str(), symbol) {
                proof {
                    assert(ps[i as int].0 == symbol@);
                    let k = choose|k: int| 0 <= k < ps.len() && (#[trigger] ps[k]).0 == symbol@;
                    if k != i {
                        if k < i {
                            assert(ps[k].0 != symbol@);
                        } else {
                            assert(ps[i as int].0 != ps[k].0);
                        }
                    }
                }
                return Some(i);
            }
            i = i + 1;
        }
        None
    }

    /// The quantity held in `symbol`, zero when there is no position.
    pub fn quantity_of(&self, symbol: &str) -> (r: i64)
        requires
            self.wf(),
        ensures
            r as int == quantity_held(self.view_positions(), symbol@),
    {
        match self.find(symbol) {
            Some(i) => {
                proof {
                    assert(self.view_positions()[i as int].1 == self.positions@[i as int].quantity);
                }
                self.positions[i].quantity
            },
            None => 0,
        }
    }

    /// Applies a signed quantity change in `symbol`: the position is resized,
    /// removed when it reaches zero, or opened at the end when there was none
    /// and the change is not zero.
    pub fn update_position(&mut self, symbol: &str, quantity_delta: i64) -> (c: PositionChange)
        requires
            old(self).wf(),
            i64::MIN <= quantity_held(old(self).view_positions(), symbol@) + quantity_delta <= i64::MAX,
        ensures
            final(self).wf(),
            quantity_held(final(self).view_positions(), symbol@) == quantity_held(old(self).view_positions(), symbol@)
                + quantity_delta,
            forall|s: Seq<char>| s != symbol@ ==> #[trigger] quantity_held(final(self).view_positions(), s)
                == quantity_held(old(self).view_positions(), s),
            match position_index(old(self).view_positions(), symbol@) {
                Some(i) => {
                    let q = old(self).view_positions()[i].1;
                    if q + quantity_delta == 0 {
                        &&& c == PositionChange::Closed { index: i as usize }
                        &&& final(self).view_positions() == old(self).view_positions().remove(i)
                    } else {
                        &&& c == PositionChange::Resized { index: i as usize, previous: q }
                        &&& final(self).view_positions() == old(self).view_positions().update(
                            i,
                            (symbol@, (q + quantity_delta) as i64),
                        )
                    }
                },
                None => if quantity_delta != 0 {
                    &&& c == PositionChange::Opened
                    &&& final(self).view_positions() == old(self).view_positions().push((symbol@, quantity_delta))
                } else {
                    &&& c == PositionChange::Unchanged
                    &&& final(self).view_positions() == old(self).view_positions()
                },
            },
    {
        let ghost ps = self.view_positions();
        match self.find(symbol) {
            Some(i) => {
                let q = self.positions[i].quantity;
                proof {
                    assert(ps[i as int].1 == q);
                    assert(ps[i as int].0 == symbol@);
                }
                let new_quantity = q + quantity_delta;
                if new_quantity == 0 {
                    self.positions.remove(i);
                    proof {
                        assert(self.view_positions() =~= ps.remove(i as int));
                        self.lemma_remove_keeps(ps, i as int, symbol@);
                    }
                    PositionChange::Closed { index: i }
                } else {
                    let mut h = self.positions.remove(i);
                    h.quantity = new_quantity;
                    self.positions.insert(i, h);
                    proof {
                        assert(self.view_positions() =~= ps.update(i as int, (symbol@, new_quantity)));
                        self.lemma_update_keeps(ps, i as int, symbol@, new_quantity);
                    }
                    PositionChange::Resized { index: i, previous: q }
                }
            },
            None => {
                if quantity_delta != 0 {
                    self.positions.push(Holding { symbol: symbol.to_owned(), quantity: quantity_delta });
                    proof {
                        assert(self.view_positions() =~= ps.push((symbol@, quantity_delta)));
                        self.lemma_push_keeps(ps, symbol@, quantity_delta);
                    }
                    PositionChange::Opened
                } else {
                    PositionChange::Unchanged
                }
            },
        }
    }

    proof fn lemma_remove_keeps(&self, ps: Seq<PositionView>, i: int, symbol: Seq<char>)
        requires
            positions_wf(ps),
            0 <= i < ps.len(),
            ps[i].0 == symbol,
            self.view_positions() == ps.remove(i),
        ensures
            positions_wf(self.view_positions()),
            quantity_held(self.view_positions(), symbol) == 0,
            forall|s: Seq<char>| s != symbol ==> #[trigger] quantity_held(self.view_positions(), s)
                == quantity_held(ps, s),
    {
        let n = ps.remove(i);
        assert forall|a: int, b: int| 0 <= a < b < n.len() implies (#[trigger] n[a]).0 != (#[trigger] n[b]).0 by {
            let a2 = if a < i { a } else { a + 1 };
            let b2 = if b < i { b } else { b + 1 };
            assert(n[a] == ps[a2] && n[b] == ps[b2]);
        }
        assert forall|a: int| 0 <= a < n.len() implies (#[trigger] n[a]).1 != 0 by {
            let a2 = if a < i { a } else { a + 1 };
            assert(n[a] == ps[a2]);
        }
        assert forall|s: Seq<char>| #[trigger] quantity_held(n, s) == if s == symbol { 0 } else { quantity_held(ps, s) } by {
            if exists|k: int| 0 <= k < n.len() && (#[trigger] n[k]).0 == s {
                let k = choose|k: int| 0 <= k < n.len() && (#[trigger] n[k]).0 == s;
                let k2 = if k < i { k } else { k + 1 };
                assert(n[k] == ps[k2]);
                assert(s != symbol);
                let m = choose|m: int| 0 <= m < ps.len() && (#[trigger] ps[m]).0 == s;
                assert(m == k2);
            } else {
                if s != symbol && exists|m: int| 0 <= m < ps.len() && (#[trigger] ps[m]).0 == s {
                    let m = choose|m: int| 0 <= m < ps.len() && (#[trigger] ps[m]).0 == s;
                    let m2 = if m < i { m } else { m - 1 };
                    assert(n[m2] == ps[m]);
                }
            }
        }
    }

    proof fn lemma_update_keeps(&self, ps: Seq<PositionView>, i: int, symbol: Seq<char>, q: i64)
        requires
            positions_wf(ps),
            0 <= i < ps.len(),
            ps[i].0 == symbol,
            q != 0,
            self.view_positions() == ps.update(i, (symbol, q)),
        ensures
            positions_wf(self.view_positions()),
            quantity_held(self.view_positions(), symbol) == q,
            forall|s: Seq<char>| s != symbol ==> #[trigger] quantity_held(self.view_positions(), s)
                == quantity_held(ps, s),
    {
        let n = ps.update(i, (symbol, q));
        assert forall|a: int, b: int| 0 <= a < b < n.len() implies (#[trigger] n[a]).0 != (#[trigger] n[b]).0 by {
            assert(n[a].0 == ps[a].0 && n[b].0 == ps[b].0);
        }
        assert forall|s: Seq<char>| #[trigger] quantity_held(n, s) == if s == symbol { q as int } else { quantity_held(ps, s) } by {
            if exists|k: int| 0 <= k < n.len() && (#[trigger] n[k]).0 == s {
                let k = choose|k: int| 0 <= k < n.len() && (#[trigger] n[k]).0 == s;
                let m = choose|m: int| 0 <= m < ps.len() && (#[trigger] ps[m]).0 == s;
                assert(ps[k].0 == s);
                if s == symbol {
                    assert(k == i);
                } else {
                    assert(m == k);
                }
            } else {
                if exists|m: int| 0 <= m < ps.len() && (#[trigger] ps[m]).0 == s {
                    let m = choose|m: int| 0 <= m < ps.len() && (#[trigger] ps[m]).0 == s;
                    assert(n[m].0 == s);
                }
                assert(n[i].0 == symbol);
            }
        }
    }

    proof fn lemma_push_keeps(&self, ps: Seq<PositionView>, symbol: Seq<char>, q: i64)
        requires
            positions_wf(ps),
            q != 0,
            forall|j: int| 0 <= j < ps.len() ==> (#[trigger] ps[j]).0 != symbol,
            self.view_positions() == ps.push((symbol, q)),
        ensures
            positions_wf(self.view_positions()),
            quantity_held(self.view_positions(), symbol) == q,
            forall|s: Seq<char>| s != symbol ==> #[trigger] quantity_held(self.view_positions(), s)
                == quantity_held(ps, s),
    {
        let n = ps.push((symbol, q));
        assert forall|a: int, b: int| 0 <= a < b < n.len() implies (#[trigger] n[a]).0 != (#[trigger] n[b]).0 by {
            if b < ps.len() {
                assert(n[a] == ps[a] && n[b] == ps[b]);
            } else {
                assert(n[a] == ps[a]);
            }
        }
        assert forall|a: int| 0 <= a < n.len() implies (#[trigger] n[a]).1 != 0 by {
            if a < ps.len() {
                assert(n[a] == ps[a]);
            }
        }
        assert forall|s: Seq<char>| #[trigger] quantity_held(n, s) == if s == symbol { q as int } else { quantity_held(ps, s) } by {
            assert(n[ps.len() as int].0 == symbol);
            if exists|k: int| 0 <= k < n.len() && (#[trigger] n[k]).0 == s {
                let k = choose|k: int| 0 <= k < n.len() && (#[trigger] n[k]).0 == s;
                if k < ps.len() {
                    assert(n[k] == ps[k]);
                    let m = choose|m: int| 0 <= m < ps.len() && (#[trigger] ps[m]).0 == s;
                    assert(m == k);
                }
            } else {
                if exists|m: int| 0 <= m < ps.len() && (#[trigger] ps[m]).0 == s {
                    let m = choose|m: int| 0 <= m < ps.len() && (#[trigger] ps[m]).0 == s;
                    assert(n[m] == ps[m]);
                }
            }
        }
    }
}

} // verus!
