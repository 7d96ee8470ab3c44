//! The transition relation of an automaton.

use crate::buechi::{State, Symbol};
use vstd::prelude::*;

verus! {

/// The targets that `edges` lead to, each once, in the order in which they first occur.
pub open spec fn targets_of(edges: Seq<(Symbol, State)>) -> Seq<State>
    decreases edges.len(),
{
    if edges.len() == 0 {
        Seq::empty()
    } else {
        let before = targets_of(edges.drop_last());
        if before.contains(edges.last().1) {
            before
        } else {
            before.push(edges.last().1)
        }
    }
}

/// The targets of the edges of `edges` that carry `symbol`, in their order.
pub open spec fn targets_with_symbol(edges: Seq<(Symbol, State)>, symbol: Symbol) -> Seq<State>
    decreases edges.len(),
{
    if edges.len() == 0 {
        Seq::empty()
    } else {
        let before = targets_with_symbol(edges.drop_last(), symbol);
        if edges.last().0 == symbol {
            before.push(edges.last().1)
        } else {
            before
        }
    }
}

/// The symbols of the edges of `edges` that lead to `to`, in their order.
pub open spec fn symbols_to(edges: Seq<(Symbol, State)>, to: State) -> Seq<Symbol>
    decreases edges.len(),
{
    if edges.len() == 0 {
        Seq::empty()
    } else {
        let before = symbols_to(edges.drop_last(), to);
        if edges.last().1 == to {
            before.push(edges.last().0)
        } else {
            before
        }
    }
}

/// The edges of `edges`, each with its source `from` in front.
pub open spec fn with_source(from: State, edges: Seq<(Symbol, State)>) -> Seq<(State, Symbol, State)> {
    Seq::new(edges.len(), |i: int| (from, edges[i].0, edges[i].1))
}

/// Every edge of the first `n` source states: source by source, each source's edges in their order.
pub open spec fn edges_up_to(all: Seq<Seq<(Symbol, State)>>, n: nat) -> Seq<(State, Symbol, State)>
    decreases n,
{
    if n == 0 {
        Seq::empty()
    } else {
        edges_up_to(all, (n - 1) as nat) + with_source((n - 1) as State, all[n - 1])
    }
}

/// `edges`, with `edge` behind them unless it is among them.
pub open spec fn pushed_once(edges: Seq<(Symbol, State)>, edge: (Symbol, State)) -> Seq<(Symbol, State)> {
    if edges.contains(edge) {
        edges
    } else {
        edges.push(edge)
    }
}

/// What is pushed once is there, and so is what was there before, and nothing else.
pub proof fn lemma_pushed_once(edges: Seq<(Symbol, State)>, edge: (Symbol, State), other: (Symbol, State))
    ensures
        pushed_once(edges, edge).contains(other) <==> (edges.contains(other) || other == edge),
{
    let now = pushed_once(edges, edge);
    if !edges.contains(edge) {
        assert(now == edges.push(edge));
        assert(now[now.len() - 1] == edge);
        if now.contains(other) {
            let at = choose|at: int| 0 <= at < now.len() && now[at] == other;
            if at < edges.len() {
                assert(edges[at] == other);
            }
        }
        if edges.contains(other) {
            let at = choose|at: int| 0 <= at < edges.len() && edges[at] == other;
            assert(now[at] == other);
        }
    }
}

/// `all` with the edge from `from` to `to` under `symbol`, behind the other
/// edges of `from`; `all` itself where it holds that edge already.
pub open spec fn with_edge(all: Seq<Seq<(Symbol, State)>>, from: State, symbol: Symbol, to: State) -> Seq<
    Seq<(Symbol, State)>,
> {
    if all[from as int].contains((symbol, to)) {
        all
    } else {
        all.update(from as int, all[from as int].push((symbol, to)))
    }
}

/// Whether every edge leads to a state below `bound`.
pub open spec fn targets_below(all: Seq<Seq<(Symbol, State)>>, bound: nat) -> bool {
    forall|from: int, i: int|
        0 <= from < all.len() && 0 <= i < all[from].len() ==> (#[trigger] all[from][i]).1 < bound
}

/// An edge to a state below the bound leaves every target below the bound.
pub proof fn lemma_with_edge_below(all: Seq<Seq<(Symbol, State)>>, from: State, symbol: Symbol, to: State, bound: nat)
    requires
        targets_below(all, bound),
        from < all.len(),
        to < bound,
    ensures
        targets_below(with_edge(all, from, symbol, to), bound),
        with_edge(all, from, symbol, to).len() == all.len(),
        forall|other: int| 0 <= other < all.len() && other != from ==> with_edge(all, from, symbol, to)[other] == all[other],
        with_edge(all, from, symbol, to)[from as int] == if all[from as int].contains((symbol, to)) {
            all[from as int]
        } else {
            all[from as int].push((symbol, to))
        },
{
    let after = with_edge(all, from, symbol, to);
    assert forall|source: int, i: int| 0 <= source < after.len() && 0 <= i < after[source].len() implies (
    #[trigger] after[source][i]).1 < bound by {
        if source == from && !all[source].contains((symbol, to)) {
            if i < all[source].len() {
                assert(after[source][i] == all[source][i]);
            }
        } else {
            assert(after[source][i] == all[source][i]);
        }
    }
}

/// Whether no source state holds the same edge twice.
pub open spec fn edges_distinct(all: Seq<Seq<(Symbol, State)>>) -> bool {
    forall|i: int| 0 <= i < all.len() ==> (#[trigger] all[i]).no_duplicates()
}

/// For each source state its outgoing edges, as pairs of symbol and target,
/// in the order in which they were added.
#[derive(Debug, Clone)]
pub struct Transitions {
    transitions: Vec<Vec<(Symbol, State)>>,
}

impl View for Transitions {
    type V = Seq<Seq<(Symbol, State)>>;

    closed spec fn view(&self) -> Self::V {
        Seq::new(self.transitions@.len(), |i: int| self.transitions@[i]@)
    }
}

impl Transitions {
    /// A relation over `amount_states` states without any edge.
    pub fn for_states(amount_states: usize) -> (r: Transitions)
        ensures
            r@.len() == amount_states,
            forall|i: int| 0 <= i < amount_states ==> r@[i] == Seq::<(Symbol, State)>::empty(),
            edges_distinct(r@),
    {
        let mut transitions: Vec<Vec<(Symbol, State)>> = Vec::new();
        let mut i: usize = 0;
        while i < amount_states
            invariant
                i <= amount_states,
                transitions@.len() == i,
                forall|j: int| 0 <= j < i ==> (#[trigger] transitions@[j])@ == Seq::<(Symbol, State)>::empty(),
            decreases amount_states - i,
        {
            transitions.push(Vec::new());
            i = i + 1;
        }
        Transitions { transitions }
    }

    /// The number of source states.
    pub fn amount_states(&self) -> (r: usize)
        ensures
            r == self@.len(),
    {
        self.transitions.len()
    }

    /// Adds the edge from `from_state` to `to_state` under `symbol`, unless it is there already.
    pub fn add(&mut self, from_state: State, symbol: Symbol, to_state: State)
        requires
            from_state < old(self)@.len(),
        ensures
            final(self)@ == with_edge(old(self)@, from_state, symbol, to_state),
            edges_distinct(old(self)@) ==> edges_distinct(final(self)@),
    {
        let n = self.transitions.len();
        if !self.has(&from_state, &symbol, &to_state) {
            let ghost before = self.transitions@;
            let ghost row = before[from_state as int]@;
            self.transitions[from_state as usize].push((symbol, to_state));
            proof {
                assert(self@ =~= old(self)@.update(from_state as int, row.push((symbol, to_state))));
                if edges_distinct(old(self)@) {
                    assert(old(self)@[from_state as int].no_duplicates());
                    assert(row.push((symbol, to_state)).no_duplicates());
                }
            }
        } else {
            assert(self@ =~= old(self)@);
        }
    }

    /// Whether the edge from `from_state` to `to_state` under `symbol` is held.
    pub fn has(&self, from_state: &State, symbol: &Symbol, to_state: &State) -> (r: bool)
        requires
            *from_state < self@.len(),
        ensures
            r == self@[*from_state as int].contains((*symbol, *to_state)),
    {
        let n = self.transitions.len();
        let row = &self.transitions[*from_state as usize];
        let mut i: usize = 0;
        while i < row.len()
            invariant
                i <= row@.len(),
                *from_state < self@.len(),
                row@ == self@[*from_state as int],
                forall|j: int| 0 <= j < i ==> row@[j] != (*symbol, *to_state),
            decreases row@.len() - i,
        {
            if row[i].0 == *symbol && row[i].1 == *to_state {
                assert(row@[i as int] == (*symbol, *to_state));
                return true;
            }
            i = i + 1;
        }
        false
    }

    /// The symbols of the edges from `from_state` to `to_state`, in the order in which they were added.
    pub fn get_symbols_from_to(&self, from_state: &State, to_state: &State) -> (r: Vec<Symbol>)
        requires
            *from_state < self@.len(),
        ensures
            r@ == symbols_to(self@[*from_state as int], *to_state),
    {
        let n = self.transitions.len();
        let row = &self.transitions[*from_state as usize];
        let mut out: Vec<Symbol> = Vec::new();
        let mut i: usize = 0;
        while i < row.len()
            invariant
                i <= row@.len(),
                *from_state < self@.len(),
                row@ == self@[*from_state as int],
                out@ == symbols_to(row@.take(i as int), *to_state),
            decreases row@.len() - i,
        {
            assert(row@.take(i + 1).drop_last() =~= row@.take(i as int));
            if row[i].1 == *to_state {
                out.push(row[i].0);
            }
            i = i + 1;
        }
        assert(row@.take(i as int) =~= row@);
        out
    }

    /// The states that an edge leads to from `from_state`, each once, in the
    /// order in which they were first added.
    pub fn get_next_states_from_state(&self, from_state: State) -> (r: Vec<State>)
        requires
            from_state < self@.len(),
        ensures
            r@ == targets_of(self@[from_state as int]),
    {
        let n = self.transitions.len();
        let row = &self.transitions[from_state as usize];
        let mut out: Vec<State> = Vec::new();
        let mut i: usize = 0;
        while i < row.len()
            invariant
                i <= row@.len(),
                from_state < self@.len(),
                row@ == self@[from_state as int],
                out@ == targets_of(row@.take(i as int)),
            decreases row@.len() - i,
        {
            assert(row@.take(i + 1).drop_last() =~= row@.take(i as int));
            let target = row[i].1;
            let mut known = false;
            let mut j: usize = 0;
            while j < out.len()
                invariant
                    j <= out@.len(),
                    known == exists|k: int| 0 <= k < j && out@[k] == target,
                decreases out@.len() - j,
            {
                if out[j] == target {
                    known = true;
                }
                j = j + 1;
            }
            if !known {
                out.push(target);
            }
            i = i + 1;
        }
        assert(row@.take(i as int) =~= row@);
        out
    }

    /// The edges that leave `from_state`, as pairs of symbol and target, in
    /// the order in which they were added.
    pub fn get_from_state(&self, from_state: State) -> (r: Vec<(Symbol, State)>)
        requires
            from_state < self@.len(),
        ensures
            r@ == self@[from_state as int],
    {
        let n = self.transitions.len();
        let row = &self.transitions[from_state as usize];
        let mut out: Vec<(Symbol, State)> = Vec::new();
        let mut i: usize = 0;
        while i < row.len()
            invariant
                i <= row@.len(),
                out@ == row@.take(i as int),
            decreases row@.len() - i,
        {
            out.push(row[i]);
            assert(out@ =~= row@.take(i + 1));
            i = i + 1;
        }
        assert(row@.take(i as int) =~= row@);
        out
    }

    /// The targets of the edges that leave `from_state` under `with_symbol`,
    /// in the order in which they were added.
    pub fn get_from_state_with_symbol(&self, from_state: State, with_symbol: Symbol) -> (r: Vec<State>)
        requires
            from_state < self@.len(),
        ensures
            r@ == targets_with_symbol(self@[from_state as int], with_symbol),
    {
        let n = self.transitions.len();
        let row = &self.transitions[from_state as usize];
        let mut out: Vec<State> = Vec::new();
        let mut i: usize = 0;
        while i < row.len()
            invariant
                i <= row@.len(),
                from_state < self@.len(),
                row@ == self@[from_state as int],
                out@ == targets_with_symbol(row@.take(i as int), with_symbol),
            decreases row@.len() - i,
        {
            assert(row@.take(i + 1).drop_last() =~= row@.take(i as int));
            if row[i].0 == with_symbol {
                out.push(row[i].1);
            }
            i = i + 1;
        }
        assert(row@.take(i as int) =~= row@);
        out
    }

    /// Every edge as a triple of source, symbol and target: source by source,
    /// each source's edges in the order in which they were added.
    pub fn get_all(&self) -> (r: Vec<(State, Symbol, State)>)
        ensures
            r@ == edges_up_to(self@, self@.len()),
    {
        let n = self.transitions.len();
        let mut out: Vec<(State, Symbol, State)> = Vec::new();
        let mut from: usize = 0;
        while from < n
            invariant
                from <= n,
                n == self@.len(),
                out@ == edges_up_to(self@, from as nat),
            decreases n - from,
        {
            let row = &self.transitions[from];
            let ghost start = out@;
            let mut i: usize = 0;
            while i < row.len()
                invariant
                    i <= row@.len(),
                    from < n,
                    n == self@.len(),
                    row@ == self@[from as int],
                    out@ == start + with_source(from as State, row@).take(i as int),
                decreases row@.len() - i,
            {
                out.push((from as State, row[i].0, row[i].1));
                assert(out@ =~= start + with_source(from as State, row@).take(i + 1));
                i = i + 1;
            }
            assert(with_source(from as State, row@).take(i as int) =~= with_source(from as State, row@));
            from = from + 1;
        }
        out
    }
}

} // verus!
