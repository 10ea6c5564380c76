//! The constraint system.
//!
//! A circuit is a list of signals, each bound to a non-negative
//! integer below `cap()`, and a list of gates, each an algebraic
//! relation over the signals.  The builder records both the gates and
//! a concrete assignment (the witness the prover intends), so a built
//! circuit can be checked for satisfiability directly, or exported to
//! an external proving backend.
//!
//! Gate semantics are exact integer arithmetic.  The deferred-reduction
//! transform relies on signals staying below the capacity of the
//! backend's field; `cap()` is 2^170, which leaves room for
//! `2^(LOG_N + 1) * q^(LOG_N + 1)` at the largest supported dimension,
//! and every allocation is checked against it.  The multiplication
//! gate constrains its operands to 64 bits; a backend realizes it as a
//! product gate plus two native range checks, and every operand the
//! circuits multiply is range-checked well below that anyway.

use vstd::prelude::*;
use vstd::arithmetic::power2::pow2;
use vstd::arithmetic::mul::lemma_mul_upper_bound;
use vstd::seq_lib::*;
use crate::nums::Wide;

verus! {

/// The exclusive upper bound on every signal value: 2^170.
pub open spec fn cap() -> nat {
    0x4000000000000000000000000000000000000000000nat
}

/// The exclusive upper bound on the constant of a linear gate: 2^230.
pub open spec fn const_cap() -> nat {
    0x4000000000000000000000000000000000000000000000000000000000nat
}

/// The maximum number of terms on one side of a linear gate.
pub open spec fn max_terms() -> nat {
    4096
}

/// One gate: an algebraic relation over signal values.
pub enum Gate {
    /// Sum of `coeff * signal` terms plus a constant on each side;
    /// holds when the two sides are equal.
    Lin { pos: Vec<(u64, usize)>, neg: Vec<(u64, usize)>, pos_c: Wide, neg_c: Wide },
    /// Holds when `a` and `b` are 64-bit values whose product is `c`.
    Mul { a: usize, b: usize, c: usize },
    /// Holds when `a` is below `2^bits`.
    Range { a: usize, bits: usize },
    /// Holds when `r` is 1 if `a == b` and 0 otherwise.
    IsEq { a: usize, b: usize, r: usize },
}

/// The value of signal `i` under assignment `w` (0 out of range).
pub open spec fn wire_val(w: Seq<nat>, i: usize) -> nat {
    if i < w.len() {
        w[i as int]
    } else {
        0
    }
}

/// The sum of `coeff * signal` over a term list.
pub open spec fn term_sum(ts: Seq<(u64, usize)>, w: Seq<nat>) -> nat
    decreases ts.len(),
{
    if ts.len() == 0 {
        0
    } else {
        (term_sum(ts.drop_last(), w) + ts.last().0 * wire_val(w, ts.last().1)) as nat
    }
}

/// Whether a gate holds under assignment `w`.
pub open spec fn gate_holds(g: Gate, w: Seq<nat>) -> bool {
    match g {
        Gate::Lin { pos, neg, pos_c, neg_c } => term_sum(pos@, w) + pos_c.val() == term_sum(
            neg@,
            w,
        ) + neg_c.val(),
        Gate::Mul { a, b, c } => wire_val(w, a) < 0x1_0000_0000_0000_0000 && wire_val(w, b)
            < 0x1_0000_0000_0000_0000 && wire_val(w, a) * wire_val(w, b) == wire_val(w, c),
        Gate::Range { a, bits } => wire_val(w, a) < pow2(bits as nat),
        Gate::IsEq { a, b, r } => wire_val(w, r) == if wire_val(w, a) == wire_val(w, b) {
            1nat
        } else {
            0nat
        },
    }
}

/// Whether every signal a gate names is below `n`.
pub open spec fn gate_refs_ok(g: Gate, n: nat) -> bool {
    match g {
        Gate::Lin { pos, neg, pos_c, neg_c } => (forall|i: int|
            0 <= i < pos@.len() ==> (#[trigger] pos@[i]).1 < n) && (forall|i: int|
            0 <= i < neg@.len() ==> (#[trigger] neg@[i]).1 < n),
        Gate::Mul { a, b, c } => a < n && b < n && c < n,
        Gate::Range { a, bits } => a < n,
        Gate::IsEq { a, b, r } => a < n && b < n && r < n,
    }
}

/// Structural bounds on a gate: references below `n`, term lists and
/// constants small enough that evaluation cannot overflow.
pub open spec fn gate_wf(g: Gate, n: nat) -> bool {
    gate_refs_ok(g, n) && match g {
        Gate::Lin { pos, neg, pos_c, neg_c } => pos@.len() <= max_terms() && neg@.len()
            <= max_terms() && pos_c.val() < const_cap() && neg_c.val() < const_cap(),
        Gate::Mul { a, b, c } => true,
        Gate::Range { a, bits } => bits <= 64,
        Gate::IsEq { a, b, r } => true,
    }
}

/// Whether every gate in a list is well formed for `n` signals.
pub open spec fn gates_wf(gates: Seq<Gate>, n: nat) -> bool {
    forall|i: int| 0 <= i < gates.len() ==> gate_wf(#[trigger] gates[i], n)
}

/// Whether every gate in a list holds under `w`.
pub open spec fn holds_all(gates: Seq<Gate>, w: Seq<nat>) -> bool {
    forall|i: int| 0 <= i < gates.len() ==> gate_holds(#[trigger] gates[i], w)
}

/// A circuit under construction: its signal assignment, its gates,
/// and which signals are public inputs, in order.
pub struct CircuitBuilder {
    pub values: Vec<Wide>,
    pub gates: Vec<Gate>,
    pub publics: Vec<usize>,
}

impl CircuitBuilder {
    /// The signal assignment as a sequence of integers.
    pub open spec fn wires(self) -> Seq<nat> {
        self.values@.map_values(|v: Wide| v.val())
    }

    /// Structural well-formedness: all values in capacity, all gates
    /// and public-input references in range.
    pub open spec fn wf(self) -> bool {
        &&& forall|i: int| 0 <= i < self.values@.len() ==> (#[trigger] self.values@[i]).val() < cap()
        &&& gates_wf(self.gates@, self.values@.len() as nat)
        &&& forall|i: int|
            0 <= i < self.publics@.len() ==> (#[trigger] self.publics@[i]) < self.values@.len()
    }

    /// Whether the recorded assignment satisfies every recorded gate.
    pub open spec fn ok(self) -> bool {
        holds_all(self.gates@, self.wires())
    }

    /// The values of the public-input signals, in order.
    pub open spec fn public_values(self) -> Seq<nat> {
        self.publics@.map_values(|i: usize| wire_val(self.wires(), i))
    }

    /// An empty circuit.
    pub fn new() -> (r: CircuitBuilder)
        ensures
            r.wf(),
            r.ok(),
            r.values@.len() == 0,
            r.gates@.len() == 0,
            r.publics@.len() == 0,
    {
        let r = CircuitBuilder { values: Vec::new(), gates: Vec::new(), publics: Vec::new() };
        proof {
            assert(r.wires() =~= Seq::<nat>::empty());
        }
        r
    }

    /// The number of signals.
    pub fn num_signals(&self) -> (r: usize)
        ensures
            r == self.values@.len(),
    {
        self.values.len()
    }

    /// The number of gates.
    pub fn num_gates(&self) -> (r: usize)
        ensures
            r == self.gates@.len(),
    {
        self.gates.len()
    }

    /// The recorded value of a signal.
    pub fn value_of(&self, s: usize) -> (r: Wide)
        requires
            s < self.values@.len(),
        ensures
            r.val() == self.wires()[s as int],
    {
        self.values[s]
    }

    /// Allocates a fresh witness signal bound to `v`.
    pub fn alloc_witness(&mut self, v: Wide) -> (s: usize)
        requires
            old(self).wf(),
            v.val() < cap(),
        ensures
            final(self).wf(),
            extends(*old(self), *final(self)),
            s == old(self).values@.len(),
            final(self).values@.len() == old(self).values@.len() + 1,
            final(self).wires() == old(self).wires().push(v.val()),
            final(self).gates@ == old(self).gates@,
            final(self).publics@ == old(self).publics@,
            final(self).ok() <==> old(self).ok(),
    {
        let s = self.values.len();
        let ghost pre = *self;
        self.values.push(v);
        proof {
            assert(self.wires() =~= pre.wires().push(v.val()));
            lemma_wf_grow(pre, *self);
            lemma_holds_all_extend(pre.gates@, pre.wires(), self.wires());
        }
        s
    }

    /// Allocates a fresh public-input signal bound to `v`.
    pub fn alloc_public(&mut self, v: Wide) -> (s: usize)
        requires
            old(self).wf(),
            v.val() < cap(),
        ensures
            final(self).wf(),
            extends(*old(self), *final(self)),
            s == old(self).values@.len(),
            final(self).values@.len() == old(self).values@.len() + 1,
            final(self).wires() == old(self).wires().push(v.val()),
            final(self).gates@ == old(self).gates@,
            final(self).publics@ == old(self).publics@.push(s),
            final(self).ok() <==> old(self).ok(),
    {
        let s = self.values.len();
        let ghost pre = *self;
        self.values.push(v);
        self.publics.push(s);
        proof {
            assert(self.wires() =~= pre.wires().push(v.val()));
            lemma_wf_grow_public(pre, *self, s);
            lemma_holds_all_extend(pre.gates@, pre.wires(), self.wires());
        }
        s
    }

    /// Appends a linear gate: `sum(pos) + pos_c == sum(neg) + neg_c`.
    pub fn assert_lin(&mut self, pos: Vec<(u64, usize)>, neg: Vec<(u64, usize)>, pos_c: Wide, neg_c: Wide)
        requires
            old(self).wf(),
            gate_wf(
                Gate::Lin { pos, neg, pos_c, neg_c },
                old(self).values@.len() as nat,
            ),
        ensures
            final(self).wf(),
            extends(*old(self), *final(self)),
            final(self).values@ == old(self).values@,
            final(self).publics@ == old(self).publics@,
            final(self).gates@ == old(self).gates@.push(
                Gate::Lin { pos, neg, pos_c, neg_c },
            ),
            final(self).ok() <==> (old(self).ok() && gate_holds(
                Gate::Lin { pos, neg, pos_c, neg_c },
                old(self).wires(),
            )),
    {
        let ghost pre = *self;
        let ghost g = Gate::Lin { pos, neg, pos_c, neg_c };
        self.gates.push(Gate::Lin { pos, neg, pos_c, neg_c });
        proof {
            lemma_push_gate(pre, *self, g);
        }
    }

    /// Appends a multiplication gate and a fresh signal bound to the
    /// product of the operands' recorded values.
    pub fn mul_gate(&mut self, a: usize, b: usize) -> (c: usize)
        requires
            old(self).wf(),
            a < old(self).values@.len(),
            b < old(self).values@.len(),
            old(self).wires()[a as int] < 0x1_0000_0000_0000_0000,
            old(self).wires()[b as int] < 0x1_0000_0000_0000_0000,
            old(self).wires()[a as int] * old(self).wires()[b as int] < cap(),
        ensures
            final(self).wf(),
            extends(*old(self), *final(self)),
            c == old(self).values@.len(),
            final(self).values@.len() == old(self).values@.len() + 1,
            final(self).wires() == old(self).wires().push(
                old(self).wires()[a as int] * old(self).wires()[b as int],
            ),
            final(self).publics@ == old(self).publics@,
            final(self).gates@ == old(self).gates@.push(Gate::Mul { a, b, c }),
            final(self).ok() <==> old(self).ok(),
    {
        let av = self.values[a].to_u64();
        let bv = self.values[b].to_u64();
        proof {
            lemma_mul_upper_bound(av as int, 0xffff_ffff_ffff_ffff, bv as int, 0xffff_ffff_ffff_ffff);
        }
        let prod: u128 = av as u128 * bv as u128;
        let pw = Wide::from_u128(prod);
        let ghost pre0 = *self;
        let c = self.alloc_witness(pw);
        let ghost pre = *self;
        let ghost g = Gate::Mul { a, b, c };
        self.gates.push(Gate::Mul { a, b, c });
        proof {
            lemma_push_gate(pre, *self, g);
            assert(gate_holds(g, pre.wires()));
        }
        c
    }

    /// Appends a range gate: the signal is below `2^bits`.
    pub fn range_gate(&mut self, a: usize, bits: usize)
        requires
            old(self).wf(),
            a < old(self).values@.len(),
            bits <= 64,
        ensures
            final(self).wf(),
            extends(*old(self), *final(self)),
            final(self).values@ == old(self).values@,
            final(self).publics@ == old(self).publics@,
            final(self).gates@ == old(self).gates@.push(Gate::Range { a, bits }),
            final(self).ok() <==> (old(self).ok() && old(self).wires()[a as int] < pow2(
                bits as nat,
            )),
    {
        let ghost pre = *self;
        let ghost g = Gate::Range { a, bits };
        self.gates.push(Gate::Range { a, bits });
        proof {
            lemma_push_gate(pre, *self, g);
        }
    }

    /// Appends an equality-test gate and a fresh signal bound to 1
    /// when the operands' values are equal and 0 otherwise.
    pub fn is_eq_gate(&mut self, a: usize, b: usize) -> (r: usize)
        requires
            old(self).wf(),
            a < old(self).values@.len(),
            b < old(self).values@.len(),
        ensures
            final(self).wf(),
            extends(*old(self), *final(self)),
            r == old(self).values@.len(),
            final(self).values@.len() == old(self).values@.len() + 1,
            final(self).wires() == old(self).wires().push(
                if old(self).wires()[a as int] == old(self).wires()[b as int] {
                    1nat
                } else {
                    0nat
                },
            ),
            final(self).publics@ == old(self).publics@,
            final(self).gates@ == old(self).gates@.push(
                Gate::IsEq { a, b, r: old(self).values@.len() as usize },
            ),
            final(self).ok() <==> old(self).ok(),
    {
        let av = self.values[a];
        let bv = self.values[b];
        let e = if av.eq_val(&bv) {
            Wide::from_u64(1)
        } else {
            Wide::from_u64(0)
        };
        let r = self.alloc_witness(e);
        let ghost pre = *self;
        let ghost g = Gate::IsEq { a, b, r };
        self.gates.push(Gate::IsEq { a, b, r });
        proof {
            lemma_push_gate(pre, *self, g);
            assert(gate_holds(g, pre.wires()));
        }
        r
    }

    /// Checks the recorded assignment against every gate and the
    /// given public-input values.
    pub fn check_satisfied(&self, public_inputs: &Vec<u64>) -> (r: bool)
        requires
            self.wf(),
        ensures
            r <==> (self.ok() && self.public_values() == public_inputs@.map_values(
                |x: u64| x as nat,
            )),
    {
        let n_pub = self.publics.len();
        if n_pub != public_inputs.len() {
            proof {
                assert(self.public_values().len() == n_pub);
                assert(public_inputs@.map_values(|x: u64| x as nat).len()
                    == public_inputs@.len());
            }
            return false;
        }
        let mut i: usize = 0;
        while i < n_pub
            invariant
                self.wf(),
                n_pub == self.publics@.len(),
                n_pub == public_inputs@.len(),
                i <= n_pub,
                forall|k: int|
                    0 <= k < i ==> self.public_values()[k] == public_inputs@.map_values(
                        |x: u64| x as nat,
                    )[k],
            decreases n_pub - i,
        {
            let s = self.publics[i];
            let pv = Wide::from_u64(public_inputs[i]);
            if !self.values[s].eq_val(&pv) {
                proof {
                    assert(self.public_values()[i as int] == wire_val(
                        self.wires(),
                        self.publics@[i as int],
                    ));
                    assert(self.public_values()[i as int] != public_inputs@.map_values(
                        |x: u64| x as nat,
                    )[i as int]);
                }
                return false;
            }
            i = i + 1;
        }
        proof {
            assert(self.public_values() =~= public_inputs@.map_values(|x: u64| x as nat));
        }
        let n_gates = self.gates.len();
        let mut j: usize = 0;
        while j < n_gates
            invariant
                self.wf(),
                n_gates == self.gates@.len(),
                j <= n_gates,
                forall|k: int| 0 <= k < j ==> gate_holds(#[trigger] self.gates@[k], self.wires()),
            decreases n_gates - j,
        {
            if !eval_gate(&self.values, &self.gates[j]) {
                return false;
            }
            j = j + 1;
        }
        true
    }
}

/// The gates `post` added on top of `pre`.
pub open spec fn new_gates(pre: CircuitBuilder, post: CircuitBuilder) -> Seq<Gate> {
    post.gates@.skip(pre.gates@.len() as int)
}

/// Satisfaction restricts to any contiguous part of a gate list.
pub proof fn lemma_holds_all_subrange(s: Seq<Gate>, w: Seq<nat>, i: int, j: int)
    requires
        holds_all(s, w),
        0 <= i <= j <= s.len(),
    ensures
        holds_all(s.subrange(i, j), w),
{
    assert forall|k: int| 0 <= k < s.subrange(i, j).len() implies gate_holds(
        #[trigger] s.subrange(i, j)[k],
        w,
    ) by {
        assert(s.subrange(i, j)[k] == s[i + k]);
    }
}

/// An assignment that satisfies everything two successive extensions
/// added satisfies what each one added.
pub proof fn lemma_new_gates_split(
    a: CircuitBuilder,
    b: CircuitBuilder,
    c: CircuitBuilder,
    w: Seq<nat>,
)
    requires
        extends(a, b),
        extends(b, c),
        holds_all(new_gates(a, c), w),
    ensures
        holds_all(new_gates(a, b), w),
        holds_all(new_gates(b, c), w),
{
    let al = a.gates@.len() as int;
    let bl = b.gates@.len() as int;
    let cl = c.gates@.len() as int;
    assert(new_gates(a, b) =~= new_gates(a, c).subrange(0, bl - al)) by {
        assert forall|k: int| 0 <= k < bl - al implies new_gates(a, b)[k] == new_gates(
            a,
            c,
        ).subrange(0, bl - al)[k] by {
            assert(b.gates@[al + k] == b.gates@.subrange(0, bl)[al + k]);
            assert(b.gates@.is_prefix_of(c.gates@));
            assert(c.gates@.subrange(0, bl) =~= b.gates@);
        }
    }
    lemma_holds_all_subrange(new_gates(a, c), w, 0, bl - al);
    assert(new_gates(b, c) =~= new_gates(a, c).subrange(bl - al, cl - al));
    lemma_holds_all_subrange(new_gates(a, c), w, bl - al, cl - al);
}

/// A one-term list for a linear gate.
pub fn t1(c: u64, s: usize) -> (r: Vec<(u64, usize)>)
    ensures
        r@ =~= seq![(c, s)],
{
    let mut r: Vec<(u64, usize)> = Vec::new();
    r.push((c, s));
    r
}

/// A two-term list for a linear gate.
pub fn t2(c0: u64, s0: usize, c1: u64, s1: usize) -> (r: Vec<(u64, usize)>)
    ensures
        r@ =~= seq![(c0, s0), (c1, s1)],
{
    let mut r: Vec<(u64, usize)> = Vec::new();
    r.push((c0, s0));
    r.push((c1, s1));
    r
}

/// A three-term list for a linear gate.
pub fn t3(c0: u64, s0: usize, c1: u64, s1: usize, c2: u64, s2: usize) -> (r: Vec<(u64, usize)>)
    ensures
        r@ =~= seq![(c0, s0), (c1, s1), (c2, s2)],
{
    let mut r: Vec<(u64, usize)> = Vec::new();
    r.push((c0, s0));
    r.push((c1, s1));
    r.push((c2, s2));
    r
}

/// An empty term list for a linear gate.
pub fn t0() -> (r: Vec<(u64, usize)>)
    ensures
        r@ =~= Seq::<(u64, usize)>::empty(),
{
    Vec::new()
}

/// The sum of a one-term list.
pub proof fn lemma_term_sum1(c: u64, s: usize, w: Seq<nat>)
    ensures
        term_sum(seq![(c, s)], w) == c * wire_val(w, s),
{
    let s1 = seq![(c, s)];
    assert(s1.drop_last() =~= Seq::<(u64, usize)>::empty());
    assert(s1.last() == (c, s));
    assert(term_sum(s1.drop_last(), w) == 0);
    assert(term_sum(s1, w) == (term_sum(s1.drop_last(), w) + c * wire_val(w, s)) as nat);
}

/// The sum of a two-term list.
pub proof fn lemma_term_sum2(c0: u64, s0: usize, c1: u64, s1: usize, w: Seq<nat>)
    ensures
        term_sum(seq![(c0, s0), (c1, s1)], w) == c0 * wire_val(w, s0) + c1 * wire_val(w, s1),
{
    assert(seq![(c0, s0), (c1, s1)].drop_last() =~= seq![(c0, s0)]);
    lemma_term_sum1(c0, s0, w);
}

/// The sum of a three-term list.
pub proof fn lemma_term_sum3(
    c0: u64,
    s0: usize,
    c1: u64,
    s1: usize,
    c2: u64,
    s2: usize,
    w: Seq<nat>,
)
    ensures
        term_sum(seq![(c0, s0), (c1, s1), (c2, s2)], w) == c0 * wire_val(w, s0) + c1 * wire_val(
            w,
            s1,
        ) + c2 * wire_val(w, s2),
{
    assert(seq![(c0, s0), (c1, s1), (c2, s2)].drop_last() =~= seq![(c0, s0), (c1, s1)]);
    lemma_term_sum2(c0, s0, c1, s1, w);
}

/// A signal an extension kept has its old value.
pub proof fn lemma_extends_wire(pre: CircuitBuilder, post: CircuitBuilder, j: int)
    requires
        extends(pre, post),
        0 <= j < pre.values@.len(),
    ensures
        post.wires()[j] == pre.wires()[j],
{
    assert(pre.values@[j] == post.values@.subrange(0, pre.values@.len() as int)[j]);
}

/// Whether `post` grows out of `pre`: old signals, gates and public
/// inputs are unchanged.
pub open spec fn extends(pre: CircuitBuilder, post: CircuitBuilder) -> bool {
    &&& pre.values@.is_prefix_of(post.values@)
    &&& pre.gates@.is_prefix_of(post.gates@)
    &&& pre.publics@.is_prefix_of(post.publics@)
}

/// Growing the circuit keeps it grown: prefix relations compose.
pub proof fn lemma_extends_trans(a: CircuitBuilder, b: CircuitBuilder, c: CircuitBuilder)
    requires
        extends(a, b),
        extends(b, c),
    ensures
        extends(a, c),
{
    assert(a.values@.is_prefix_of(c.values@));
    assert(a.gates@.is_prefix_of(c.gates@));
    assert(a.publics@.is_prefix_of(c.publics@));
}

/// A term sum reads only the signals the terms name, so extending the
/// assignment does not change it.
pub proof fn lemma_term_sum_extend(ts: Seq<(u64, usize)>, w1: Seq<nat>, w2: Seq<nat>)
    requires
        forall|i: int| 0 <= i < ts.len() ==> (#[trigger] ts[i]).1 < w1.len(),
        w1.is_prefix_of(w2),
    ensures
        term_sum(ts, w1) == term_sum(ts, w2),
    decreases ts.len(),
{
    if ts.len() > 0 {
        lemma_term_sum_extend(ts.drop_last(), w1, w2);
        assert(wire_val(w1, ts.last().1) == wire_val(w2, ts.last().1));
    }
}

/// A gate reads only the signals it names, so extending the
/// assignment does not change whether it holds.
pub proof fn lemma_gate_holds_extend(g: Gate, w1: Seq<nat>, w2: Seq<nat>)
    requires
        gate_refs_ok(g, w1.len() as nat),
        w1.is_prefix_of(w2),
    ensures
        gate_holds(g, w1) <==> gate_holds(g, w2),
{
    match g {
        Gate::Lin { pos, neg, pos_c, neg_c } => {
            lemma_term_sum_extend(pos@, w1, w2);
            lemma_term_sum_extend(neg@, w1, w2);
        },
        Gate::Mul { a, b, c } => {},
        Gate::Range { a, bits } => {},
        Gate::IsEq { a, b, r } => {},
    }
}

/// Extending the assignment preserves which recorded gates hold.
pub proof fn lemma_holds_all_extend(gates: Seq<Gate>, w1: Seq<nat>, w2: Seq<nat>)
    requires
        gates_wf(gates, w1.len() as nat),
        w1.is_prefix_of(w2),
    ensures
        holds_all(gates, w1) <==> holds_all(gates, w2),
{
    assert forall|i: int| 0 <= i < gates.len() implies (gate_holds(#[trigger] gates[i], w1)
        <==> gate_holds(gates[i], w2)) by {
        lemma_gate_holds_extend(gates[i], w1, w2);
    }
}

/// Pushing one signal keeps the circuit well formed.
proof fn lemma_wf_grow(pre: CircuitBuilder, post: CircuitBuilder)
    requires
        pre.wf(),
        post.gates@ == pre.gates@,
        post.publics@ == pre.publics@,
        post.values@.len() == pre.values@.len() + 1,
        pre.values@.is_prefix_of(post.values@),
        post.values@.last().val() < cap(),
    ensures
        post.wf(),
        extends(pre, post),
{
    lemma_wf_grow_common(pre, post);
}

/// Pushing one public signal keeps the circuit well formed.
proof fn lemma_wf_grow_public(pre: CircuitBuilder, post: CircuitBuilder, s: usize)
    requires
        pre.wf(),
        post.gates@ == pre.gates@,
        post.publics@ == pre.publics@.push(s),
        s < post.values@.len(),
        post.values@.len() == pre.values@.len() + 1,
        pre.values@.is_prefix_of(post.values@),
        post.values@.last().val() < cap(),
    ensures
        post.wf(),
        extends(pre, post),
{
    lemma_wf_grow_common(pre, post);
}

/// The shared part of the growth lemmas: the old gates and values
/// stay well formed after one signal is pushed.
proof fn lemma_wf_grow_common(pre: CircuitBuilder, post: CircuitBuilder)
    requires
        pre.wf(),
        post.gates@ == pre.gates@,
        post.values@.len() == pre.values@.len() + 1,
        pre.values@.is_prefix_of(post.values@),
        post.values@.last().val() < cap(),
    ensures
        forall|i: int| 0 <= i < post.values@.len() ==> (#[trigger] post.values@[i]).val() < cap(),
        gates_wf(post.gates@, post.values@.len() as nat),
{
    assert forall|i: int| 0 <= i < post.values@.len() implies (#[trigger] post.values@[i]).val()
        < cap() by {
        if i < pre.values@.len() {
            assert(pre.values@[i] == post.values@.subrange(0, pre.values@.len() as int)[i]);
        } else {
            assert(post.values@[i] == post.values@.last());
        }
    }
    assert forall|i: int| 0 <= i < post.gates@.len() implies gate_wf(
        #[trigger] post.gates@[i],
        post.values@.len() as nat,
    ) by {
        lemma_gate_wf_weaken(post.gates@[i], pre.values@.len() as nat, post.values@.len() as nat);
    }
}

/// A gate well formed for `n` signals is well formed for more.
proof fn lemma_gate_wf_weaken(g: Gate, n1: nat, n2: nat)
    requires
        gate_wf(g, n1),
        n1 <= n2,
    ensures
        gate_wf(g, n2),
{
}

/// Pushing one gate that is well formed keeps the circuit well
/// formed, and satisfaction splits into the old gates and the new one.
proof fn lemma_push_gate(pre: CircuitBuilder, post: CircuitBuilder, g: Gate)
    requires
        pre.wf(),
        gate_wf(g, pre.values@.len() as nat),
        post.values@ == pre.values@,
        post.publics@ == pre.publics@,
        post.gates@ == pre.gates@.push(g),
    ensures
        post.wf(),
        extends(pre, post),
        post.ok() <==> (pre.ok() && gate_holds(g, pre.wires())),
{
    assert(post.wires() == pre.wires());
    if pre.ok() && gate_holds(g, pre.wires()) {
        assert forall|i: int| 0 <= i < post.gates@.len() implies gate_holds(
            #[trigger] post.gates@[i],
            post.wires(),
        ) by {
            if i < pre.gates@.len() {
                assert(post.gates@[i] == pre.gates@[i]);
            } else {
                assert(post.gates@[i] == g);
            }
        }
    }
    if post.ok() {
        assert forall|i: int| 0 <= i < pre.gates@.len() implies gate_holds(
            #[trigger] pre.gates@[i],
            pre.wires(),
        ) by {
            assert(pre.gates@[i] == post.gates@[i]);
        }
        assert(gate_holds(g, pre.wires())) by {
            assert(post.gates@[pre.gates@.len() as int] == g);
        }
    }
}

/// A bound on a term sum from bounds on the assignment.
proof fn lemma_term_sum_bound(ts: Seq<(u64, usize)>, w: Seq<nat>)
    requires
        forall|i: int| 0 <= i < w.len() ==> w[i] < cap(),
    ensures
        term_sum(ts, w) <= ts.len() * (0xffff_ffff_ffff_ffff * cap()),
    decreases ts.len(),
{
    if ts.len() == 0 {
    } else {
        lemma_term_sum_bound(ts.drop_last(), w);
        let wv = wire_val(w, ts.last().1);
        assert(wv <= cap());
        lemma_mul_upper_bound(ts.last().0 as int, 0xffff_ffff_ffff_ffff, wv as int, cap() as int);
        assert((ts.len() - 1) * (0xffff_ffff_ffff_ffff * cap()) + (0xffff_ffff_ffff_ffff * cap())
            == ts.len() * (0xffff_ffff_ffff_ffff * cap())) by (nonlinear_arith);
    }
}

/// Evaluates one side of a linear gate on the recorded assignment.
fn eval_term_sum(values: &Vec<Wide>, ts: &Vec<(u64, usize)>) -> (r: Wide)
    requires
        forall|i: int| 0 <= i < values@.len() ==> (#[trigger] values@[i]).val() < cap(),
        ts@.len() <= max_terms(),
    ensures
        r.val() == term_sum(ts@, values@.map_values(|v: Wide| v.val())),
{
    let ghost w = values@.map_values(|v: Wide| v.val());
    let mut acc = Wide::zero();
    let mut i: usize = 0;
    proof {
        assert(ts@.take(0) =~= Seq::<(u64, usize)>::empty());
    }
    while i < ts.len()
        invariant
            forall|k: int| 0 <= k < values@.len() ==> (#[trigger] values@[k]).val() < cap(),
            w == values@.map_values(|v: Wide| v.val()),
            ts@.len() <= max_terms(),
            i <= ts@.len(),
            acc.val() == term_sum(ts@.take(i as int), w),
        decreases ts@.len() - i,
    {
        let (coeff, sig) = ts[i];
        let sv = if sig < values.len() {
            values[sig]
        } else {
            Wide::zero()
        };
        proof {
            assert(sv.val() == wire_val(w, sig));
            assert(sv.val() <= cap());
            lemma_mul_upper_bound(sv.val() as int, cap() as int, coeff as int, 0xffff_ffff_ffff_ffff);
            lemma_term_sum_bound(ts@.take(i as int), w);
            assert(ts@.take(i as int).len() * (0xffff_ffff_ffff_ffff * cap()) <= max_terms() * (
            0xffff_ffff_ffff_ffff * cap())) by (nonlinear_arith)
                requires
                    ts@.take(i as int).len() <= max_terms(),
            ;
        }
        let term = sv.mul_small(coeff);
        proof {
            vstd::arithmetic::mul::lemma_mul_is_commutative(sv.val() as int, coeff as int);
        }
        acc = acc.add_w(&term);
        proof {
            assert(ts@.take(i + 1).drop_last() =~= ts@.take(i as int));
            assert(ts@.take(i + 1).last() == ts@[i as int]);
        }
        i = i + 1;
    }
    proof {
        assert(ts@.take(ts@.len() as int) =~= ts@);
    }
    acc
}

/// Evaluates one gate on the recorded assignment.
fn eval_gate(values: &Vec<Wide>, g: &Gate) -> (r: bool)
    requires
        forall|i: int| 0 <= i < values@.len() ==> (#[trigger] values@[i]).val() < cap(),
        gate_wf(*g, values@.len() as nat),
    ensures
        r == gate_holds(*g, values@.map_values(|v: Wide| v.val())),
{
    let ghost w = values@.map_values(|v: Wide| v.val());
    match g {
        Gate::Lin { pos, neg, pos_c, neg_c } => {
            let ps = eval_term_sum(values, pos);
            let ns = eval_term_sum(values, neg);
            proof {
                lemma_term_sum_bound(pos@, w);
                lemma_term_sum_bound(neg@, w);
                assert(pos@.len() * (0xffff_ffff_ffff_ffff * cap()) <= max_terms() * (
                0xffff_ffff_ffff_ffff * cap())) by (nonlinear_arith)
                    requires
                        pos@.len() <= max_terms(),
                ;
                assert(neg@.len() * (0xffff_ffff_ffff_ffff * cap()) <= max_terms() * (
                0xffff_ffff_ffff_ffff * cap())) by (nonlinear_arith)
                    requires
                        neg@.len() <= max_terms(),
                ;
            }
            let lhs = ps.add_w(pos_c);
            let rhs = ns.add_w(neg_c);
            lhs.eq_val(&rhs)
        },
        Gate::Mul { a, b, c } => {
            let av = values[*a];
            let bv = values[*b];
            let cv = values[*c];
            let lim = Wide { l0: 0, l1: 1, l2: 0, l3: 0 };
            assert(lim.val() == 0x1_0000_0000_0000_0000);
            if av.lt(&lim) && bv.lt(&lim) {
                proof {
                    lemma_mul_upper_bound(av.val() as int, 0xffff_ffff_ffff_ffff, bv.val() as int, 0xffff_ffff_ffff_ffff);
                }
                let prod: u128 = av.to_u64() as u128 * bv.to_u64() as u128;
                let pw = Wide::from_u128(prod);
                pw.eq_val(&cv)
            } else {
                false
            }
        },
        Gate::Range { a, bits } => {
            let av = values[*a];
            if *bits == 64 {
                proof {
                    vstd::arithmetic::power2::lemma2_to64_rest();
                }
                av.l1 == 0 && av.l2 == 0 && av.l3 == 0
            } else {
                proof {
                    vstd::arithmetic::power2::lemma_pow2_strictly_increases(*bits as nat, 64);
                    vstd::arithmetic::power2::lemma2_to64_rest();
                    vstd::bits::lemma_u64_shl_is_mul(1u64, *bits as u64);
                }
                let bound: u64 = 1u64 << (*bits as u64);
                av.l1 == 0 && av.l2 == 0 && av.l3 == 0 && av.l0 < bound
            }
        },
        Gate::IsEq { a, b, r } => {
            let av = values[*a];
            let bv = values[*b];
            let rv = values[*r];
            let one = Wide::from_u64(1);
            let zero = Wide::from_u64(0);
            if av.eq_val(&bv) {
                rv.eq_val(&one)
            } else {
                rv.eq_val(&zero)
            }
        },
    }
}

} // verus!
