//! A cycle over the positions `0..n` that can change direction at any time.
use vstd::prelude::*;

verus! {

/// Number of turns played so far.
pub type Turn = u32;

/// The abstract state of a [`Cycle`].
pub struct CycleState {
    /// Number of positions.
    pub n: nat,
    /// The position handed out last (or the starting position).
    pub current: nat,
    /// Whether the cycle runs backwards.
    pub reversed: bool,
    /// Number of positions handed out so far.
    pub turn: nat,
}

impl CycleState {
    /// Before the first turn the position is the one just before the first
    /// position handed out: `n - 1` going forwards, `0` going backwards.
    pub open spec fn wf(self) -> bool {
        &&& self.n >= 1
        &&& self.current < self.n
        &&& self.turn == 0 ==> self.current == self.start(self.reversed)
    }

    /// The starting position of a cycle that runs backwards or not.
    pub open spec fn start(self, reversed: bool) -> nat {
        if reversed {
            0
        } else {
            (self.n - 1) as nat
        }
    }

    /// The state after one more position has been handed out.
    pub open spec fn advanced(self) -> CycleState {
        let next: int = if self.reversed {
            self.current as int - 1
        } else {
            self.current as int + 1
        };
        CycleState { current: (next % (self.n as int)) as nat, turn: self.turn + 1, ..self }
    }

    /// The state after a change of direction. Before the first turn the
    /// position moves to the start of the new direction, so that a backward
    /// cycle starts at `n - 1` and a forward one at `0`.
    pub open spec fn reversed_state(self) -> CycleState {
        if self.turn == 0 {
            CycleState { current: self.start(!self.reversed), reversed: !self.reversed, ..self }
        } else {
            CycleState { reversed: !self.reversed, ..self }
        }
    }

    /// The positions handed out by `k` consecutive advances.
    pub open spec fn outputs(self, k: nat) -> Seq<nat>
        decreases k,
    {
        if k == 0 {
            Seq::empty()
        } else {
            let s = self.advanced();
            seq![s.current].add(s.outputs((k - 1) as nat))
        }
    }
}

/// Cycles over the values `0..n`, forwards or backwards.
#[derive(Debug, Clone)]
pub struct Cycle {
    values: Vec<usize>,
    current: usize,
    is_reversed: bool,
    turn: Turn,
}

impl View for Cycle {
    type V = CycleState;

    closed spec fn view(&self) -> CycleState {
        CycleState {
            n: self.values@.len(),
            current: self.current as nat,
            reversed: self.is_reversed,
            turn: self.turn as nat,
        }
    }
}

impl Cycle {
    /// The state is consistent: position `i` holds the value `i`.
    pub closed spec fn wf(&self) -> bool {
        &&& self@.wf()
        &&& forall|i: int| 0 <= i < self.values@.len() ==> #[trigger] self.values@[i] == i
    }

    /// Creates a cycle over `0..n_values`, placed so that the first advance
    /// yields `0`.
    pub fn new(n_values: usize) -> (r: Self)
        requires
            n_values >= 1,
        ensures
            r.wf(),
            r@ == (CycleState { n: n_values as nat, current: (n_values - 1) as nat, reversed: false, turn: 0 }),
    {
        let mut values: Vec<usize> = Vec::with_capacity(n_values);
        let mut i: usize = 0;
        while i < n_values
            invariant
                i <= n_values,
                values@.len() == i,
                forall|j: int| 0 <= j < i ==> #[trigger] values@[j] == j,
            decreases n_values - i,
        {
            values.push(i);
            i = i + 1;
        }
        Self { values, current: n_values - 1, is_reversed: false, turn: 0 }
    }

    /// Moves one step in the current direction and returns the new position.
    pub fn next(&mut self) -> (r: Option<usize>)
        requires
            old(self).wf(),
            old(self)@.turn < Turn::MAX,
        ensures
            final(self).wf(),
            final(self)@.wf(),
            final(self)@ == old(self)@.advanced(),
            r matches Some(i) && i as nat == final(self)@.current,
    {
        let n = self.values.len();
        let current = if self.is_reversed {
            if self.current == 0 {
                n - 1
            } else {
                self.current - 1
            }
        } else {
            if self.current + 1 == n {
                0
            } else {
                self.current + 1
            }
        };
        proof {
            lemma_step_mod(self.current as int, n as int);
        }
        self.current = current;
        let item = self.values[self.current];
        self.turn = self.turn + 1;
        Some(item)
    }

    /// Changes the direction of the cycle.
    pub fn reverse(&mut self)
        requires
            old(self).wf(),
        ensures
            final(self).wf(),
            final(self)@.wf(),
            final(self)@ == old(self)@.reversed_state(),
    {
        if self.turn == 0 {
            // move to the start of the new direction
            self.current = if self.is_reversed {
                self.values.len() - 1
            } else {
                0
            };
        }
        self.is_reversed = match self.is_reversed {
            true => false,
            false => true,
        };
    }

    /// Number of positions handed out so far.
    pub fn turn(&self) -> (r: Turn)
        ensures
            r as nat == self@.turn,
    {
        self.turn
    }
}

/// One step forwards or backwards from a position in `0..n`, wrapped into `0..n`.
proof fn lemma_step_mod(c: int, n: int)
    requires
        0 <= c < n,
    ensures
        (c + 1) % n == if c + 1 == n { 0 } else { c + 1 },
        (c - 1) % n == if c == 0 { n - 1 } else { c - 1 },
{
    assert((c + 1) % n == if c + 1 == n { 0 } else { c + 1 }) by (nonlinear_arith)
        requires
            0 <= c < n,
    ;
    assert((c - 1) % n == if c == 0 { n - 1 } else { c - 1 }) by (nonlinear_arith)
        requires
            0 <= c < n,
    ;
}

/// With two positions or more, an advance hands out a position other than
/// the current one.
pub proof fn lemma_advance_moves(s: CycleState)
    requires
        s.wf(),
        s.n >= 2,
    ensures
        s.advanced().wf(),
        s.advanced().current != s.current,
{
    lemma_step_mod(s.current as int, s.n as int);
}

/// Reversing twice leaves the state as it was, so the positions that follow
/// are those that would have followed without either reversal.
pub proof fn lemma_double_reverse(s: CycleState, k: nat)
    requires
        s.wf(),
    ensures
        s.reversed_state().reversed_state() == s,
        s.reversed_state().reversed_state().outputs(k) == s.outputs(k),
{
}

} // verus!
