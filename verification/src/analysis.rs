//! The iterative dataflow-analysis engine and its worked example, a
//! three-valued sign lattice.
//!
//! An analysis domain plugs in through the [`Analyzer`] trait: a finite-height
//! lattice of abstract values, a monotone transfer function over actions, a
//! join, and a direction.  The engine seeds a fresh worklist with the nodes
//! reachable from the entry and re-evaluates nodes until nothing is pending;
//! the result is the least map that is stable under every transfer function.

use vstd::prelude::*;
use vstd::pervasive::unreached;

use crate::NodeId;
use crate::flow_graph::{Action, FlowGraph, graph_actions, graph_edges};
use crate::flow_graph::{action_of, has_edge, node_count, predecessors, successors};
use crate::microc::{ArithmeticExpr, ArithmeticLiteral, Statement};
use crate::worklist::{FifoWorklist, Worklist, insert_spec};

verus! {

/// Whether the transfer function consumes state arriving from predecessors
/// (forward) or from successors (backward).
#[derive(Debug, Clone, Copy, PartialEq, Eq, Structural)]
pub enum AnalysisDirection {
    Forward,
    Backward,
}

/// A pluggable analysis domain: a lattice of abstract values `R` with a
/// transfer function over actions.
///
/// The spec functions give the mathematical reading of each operation; the
/// proof obligations are the monotone-framework conditions.  `leq_spec` must
/// be a partial order with `initial_spec` as its bottom, `join_spec` the least
/// upper bound, and `transfer_spec` monotone in its incoming state.  The
/// lattice must have finite height: `rank_spec` places every value strictly
/// below `height_spec` and grows strictly along the order, which is what
/// guarantees that fixpoint iteration converges.
pub trait Analyzer<R>: Sized {
    /// The seed value of a node before any information has reached it.
    spec fn initial_spec(&self) -> R;

    /// The abstract effect of `a` on the incoming state.
    spec fn transfer_spec(&self, a: Action, incoming: R) -> R;

    /// The least upper bound of two abstract values.
    spec fn join_spec(&self, a: R, b: R) -> R;

    /// The lattice order: `a` is at most as imprecise as `b`.
    spec fn leq_spec(&self, a: R, b: R) -> bool;

    /// How far up the lattice a value sits.
    spec fn rank_spec(&self, a: R) -> nat;

    /// The height of the lattice: every rank lies strictly below it.
    spec fn height_spec(&self) -> nat;

    /// Whether this is a forward analysis.
    spec fn is_forward(&self) -> bool;

    fn initial_value(&self) -> (r: R)
        ensures
            r == self.initial_spec(),
    ;

    fn clone_value(&self, a: &R) -> (r: R)
        ensures
            r == *a,
    ;

    fn eq_value(&self, a: &R, b: &R) -> (r: bool)
        ensures
            r == (*a == *b),
    ;

    fn transfer(&self, a: &Action, incoming: &R) -> (r: R)
        ensures
            r == self.transfer_spec(*a, *incoming),
    ;

    fn join(&self, a: &R, b: &R) -> (r: R)
        ensures
            r == self.join_spec(*a, *b),
    ;

    fn direction(&self) -> (d: AnalysisDirection)
        ensures
            (d == AnalysisDirection::Forward) == self.is_forward(),
    ;

    proof fn lemma_leq_refl(&self, a: R)
        ensures
            self.leq_spec(a, a),
    ;

    proof fn lemma_leq_trans(&self, a: R, b: R, c: R)
        requires
            self.leq_spec(a, b),
            self.leq_spec(b, c),
        ensures
            self.leq_spec(a, c),
    ;

    proof fn lemma_leq_antisym(&self, a: R, b: R)
        requires
            self.leq_spec(a, b),
            self.leq_spec(b, a),
        ensures
            a == b,
    ;

    proof fn lemma_initial_bottom(&self, a: R)
        ensures
            self.leq_spec(self.initial_spec(), a),
    ;

    proof fn lemma_join_upper(&self, a: R, b: R)
        ensures
            self.leq_spec(a, self.join_spec(a, b)),
            self.leq_spec(b, self.join_spec(a, b)),
    ;

    proof fn lemma_join_least(&self, a: R, b: R, c: R)
        requires
            self.leq_spec(a, c),
            self.leq_spec(b, c),
        ensures
            self.leq_spec(self.join_spec(a, b), c),
    ;

    proof fn lemma_transfer_monotone(&self, act: Action, a: R, b: R)
        requires
            self.leq_spec(a, b),
        ensures
            self.leq_spec(self.transfer_spec(act, a), self.transfer_spec(act, b)),
    ;

    proof fn lemma_rank_strict(&self, a: R, b: R)
        requires
            self.leq_spec(a, b),
            a != b,
        ensures
            self.rank_spec(a) < self.rank_spec(b),
    ;

    proof fn lemma_rank_bound(&self, a: R)
        ensures
            self.rank_spec(a) < self.height_spec(),
    ;
}

/// An abstract sign: the worked example's lattice values.
#[derive(Debug, Clone, Copy, PartialEq, Eq, Structural)]
pub enum Sign {
    Plus,
    Minus,
    Zero,
}

/// Where a sign sits in the example lattice, ordered by imprecision:
/// `Zero` is the bottom, `Minus` the top.
pub open spec fn sign_rank(s: Sign) -> nat {
    match s {
        Sign::Zero => 0,
        Sign::Plus => 1,
        Sign::Minus => 2,
    }
}

/// The sign of an integer constant.
pub open spec fn sign_of_int(n: int) -> Sign {
    if n > 0 {
        Sign::Plus
    } else if n < 0 {
        Sign::Minus
    } else {
        Sign::Zero
    }
}

/// The sign analysis: a forward analysis over the three-valued sign lattice.
///
/// An assignment of an integer constant sets the state to the constant's
/// sign; every other action passes the incoming state through unchanged.
pub struct SignDetecter {}

/// The abstract effect of an action under the sign analysis.
pub open spec fn sign_transfer(a: Action, incoming: Sign) -> Sign {
    match a {
        Action::Statement(Statement::LvalueAssign(_, ArithmeticExpr::Literal(
            ArithmeticLiteral::Int(n),
        ))) => sign_of_int(n as int),
        _ => incoming,
    }
}

impl Analyzer<Sign> for SignDetecter {
    open spec fn initial_spec(&self) -> Sign {
        Sign::Zero
    }

    open spec fn transfer_spec(&self, a: Action, incoming: Sign) -> Sign {
        sign_transfer(a, incoming)
    }

    open spec fn join_spec(&self, a: Sign, b: Sign) -> Sign {
        if sign_rank(a) >= sign_rank(b) {
            a
        } else {
            b
        }
    }

    open spec fn leq_spec(&self, a: Sign, b: Sign) -> bool {
        sign_rank(a) <= sign_rank(b)
    }

    open spec fn rank_spec(&self, a: Sign) -> nat {
        sign_rank(a)
    }

    open spec fn height_spec(&self) -> nat {
        3
    }

    open spec fn is_forward(&self) -> bool {
        true
    }

    fn initial_value(&self) -> (r: Sign)
        ensures
            r == self.initial_spec(),
    {
        Sign::Zero
    }

    fn clone_value(&self, a: &Sign) -> (r: Sign)
        ensures
            r == *a,
    {
        *a
    }

    fn eq_value(&self, a: &Sign, b: &Sign) -> (r: bool)
        ensures
            r == (*a == *b),
    {
        *a == *b
    }

    fn transfer(&self, a: &Action, incoming: &Sign) -> (r: Sign)
        ensures
            r == self.transfer_spec(*a, *incoming),
    {
        match a {
            Action::Statement(Statement::LvalueAssign(_, ArithmeticExpr::Literal(
                ArithmeticLiteral::Int(n),
            ))) => if *n > 0 {
                Sign::Plus
            } else if *n < 0 {
                Sign::Minus
            } else {
                Sign::Zero
            },
            _ => *incoming,
        }
    }

    fn join(&self, a: &Sign, b: &Sign) -> (r: Sign)
        ensures
            r == self.join_spec(*a, *b),
    {
        let ra: u8 = match a {
            Sign::Zero => 0,
            Sign::Plus => 1,
            Sign::Minus => 2,
        };
        let rb: u8 = match b {
            Sign::Zero => 0,
            Sign::Plus => 1,
            Sign::Minus => 2,
        };
        if ra >= rb {
            *a
        } else {
            *b
        }
    }

    fn direction(&self) -> (d: AnalysisDirection)
        ensures
            (d == AnalysisDirection::Forward) == self.is_forward(),
    {
        AnalysisDirection::Forward
    }

    proof fn lemma_leq_refl(&self, a: Sign) {
    }

    proof fn lemma_leq_trans(&self, a: Sign, b: Sign, c: Sign) {
    }

    proof fn lemma_leq_antisym(&self, a: Sign, b: Sign) {
    }

    proof fn lemma_initial_bottom(&self, a: Sign) {
    }

    proof fn lemma_join_upper(&self, a: Sign, b: Sign) {
    }

    proof fn lemma_join_least(&self, a: Sign, b: Sign, c: Sign) {
    }

    proof fn lemma_transfer_monotone(&self, act: Action, a: Sign, b: Sign) {
    }

    proof fn lemma_rank_strict(&self, a: Sign, b: Sign) {
    }

    proof fn lemma_rank_bound(&self, a: Sign) {
    }
}

/// A second worked example, this one backward: whether a `write` statement
/// lies at or somewhere after a node.  The lattice is the two-point chain
/// over `bool`, `false` below `true`, with disjunction as the join.
pub struct WriteDetecter {}

/// The abstract effect of an action under the write-ahead analysis.
pub open spec fn write_transfer(a: Action, incoming: bool) -> bool {
    match a {
        Action::Statement(Statement::Write(_)) => true,
        _ => incoming,
    }
}

impl Analyzer<bool> for WriteDetecter {
    open spec fn initial_spec(&self) -> bool {
        false
    }

    open spec fn transfer_spec(&self, a: Action, incoming: bool) -> bool {
        write_transfer(a, incoming)
    }

    open spec fn join_spec(&self, a: bool, b: bool) -> bool {
        a || b
    }

    open spec fn leq_spec(&self, a: bool, b: bool) -> bool {
        a ==> b
    }

    open spec fn rank_spec(&self, a: bool) -> nat {
        if a {
            1
        } else {
            0
        }
    }

    open spec fn height_spec(&self) -> nat {
        2
    }

    open spec fn is_forward(&self) -> bool {
        false
    }

    fn initial_value(&self) -> (r: bool)
        ensures
            r == self.initial_spec(),
    {
        false
    }

    fn clone_value(&self, a: &bool) -> (r: bool)
        ensures
            r == *a,
    {
        *a
    }

    fn eq_value(&self, a: &bool, b: &bool) -> (r: bool)
        ensures
            r == (*a == *b),
    {
        *a == *b
    }

    fn transfer(&self, a: &Action, incoming: &bool) -> (r: bool)
        ensures
            r == self.transfer_spec(*a, *incoming),
    {
        match a {
            Action::Statement(Statement::Write(_)) => true,
            _ => *incoming,
        }
    }

    fn join(&self, a: &bool, b: &bool) -> (r: bool)
        ensures
            r == self.join_spec(*a, *b),
    {
        *a || *b
    }

    fn direction(&self) -> (d: AnalysisDirection)
        ensures
            (d == AnalysisDirection::Forward) == self.is_forward(),
    {
        AnalysisDirection::Backward
    }

    proof fn lemma_leq_refl(&self, a: bool) {
    }

    proof fn lemma_leq_trans(&self, a: bool, b: bool, c: bool) {
    }

    proof fn lemma_leq_antisym(&self, a: bool, b: bool) {
    }

    proof fn lemma_initial_bottom(&self, a: bool) {
    }

    proof fn lemma_join_upper(&self, a: bool, b: bool) {
    }

    proof fn lemma_join_least(&self, a: bool, b: bool, c: bool) {
    }

    proof fn lemma_transfer_monotone(&self, act: Action, a: bool, b: bool) {
    }

    proof fn lemma_rank_strict(&self, a: bool, b: bool) {
    }

    proof fn lemma_rank_bound(&self, a: bool) {
    }
}

/// Whether information flows from `j` into `node`: along an edge `j -> node`
/// for a forward analysis, along `node -> j` for a backward one.
pub open spec fn edge_into(edges: Set<(int, int)>, forward: bool, node: int, j: int) -> bool {
    if forward {
        edges.contains((j, node))
    } else {
        edges.contains((node, j))
    }
}

/// The value a map assigns to `j`, falling back to the domain's initial value
/// for a node that has no entry (one never visited).
pub open spec fn value_of<R, A: Analyzer<R>>(d: &A, vals: Map<int, R>, j: int) -> R {
    if vals.dom().contains(j) {
        vals[j]
    } else {
        d.initial_spec()
    }
}

/// The joined state arriving at `node` from the nodes `0 .. k` that feed it,
/// folded in index order starting from the initial value.
pub open spec fn join_below<R, A: Analyzer<R>>(
    d: &A,
    edges: Set<(int, int)>,
    vals: Map<int, R>,
    node: int,
    k: nat,
) -> R
    decreases k,
{
    if k == 0 {
        d.initial_spec()
    } else {
        let prev = join_below(d, edges, vals, node, (k - 1) as nat);
        if edge_into(edges, d.is_forward(), node, k - 1) {
            d.join_spec(prev, value_of(d, vals, k - 1))
        } else {
            prev
        }
    }
}

/// Whether `path` is a walk through valid node indices along graph edges.
pub open spec fn is_walk(edges: Set<(int, int)>, n: nat, path: Seq<int>) -> bool {
    &&& forall|i: int| 0 <= i < path.len() ==> 0 <= #[trigger] path[i] < n
    &&& forall|i: int| 0 < i < path.len() ==> edges.contains((path[i - 1], #[trigger] path[i]))
}

/// Whether `node` is a valid index that some walk connects to `entry`.
pub open spec fn reachable(edges: Set<(int, int)>, n: nat, entry: int, node: int) -> bool {
    exists|path: Seq<int>|
        #[trigger] is_walk(edges, n, path) && path.len() > 0 && path.first() == entry
            && path.last() == node
}

/// The entry node reaches itself.
proof fn lemma_reach_entry(edges: Set<(int, int)>, n: nat, entry: int)
    requires
        0 <= entry < n,
    ensures
        reachable(edges, n, entry, entry),
{
    let w = seq![entry];
    assert(is_walk(edges, n, w));
    assert(w.first() == entry && w.last() == entry);
}

/// Reachability extends along an edge.
proof fn lemma_reach_step(edges: Set<(int, int)>, n: nat, entry: int, v: int, node: int)
    requires
        reachable(edges, n, entry, v),
        0 <= node < n,
        edges.contains((v, node)),
    ensures
        reachable(edges, n, entry, node),
{
    let w = choose|path: Seq<int>|
        #[trigger] is_walk(edges, n, path) && path.len() > 0 && path.first() == entry
            && path.last() == v;
    let w2 = w.push(node);
    assert(is_walk(edges, n, w2));
    assert(w2.first() == entry && w2.last() == node);
}

proof fn lemma_walk_in_closed(
    edges: Set<(int, int)>,
    n: nat,
    entry: int,
    v: Set<int>,
    w: Seq<int>,
)
    requires
        v.contains(entry),
        forall|p: int, m: int|
            #![trigger v.contains(p), edges.contains((p, m))]
            v.contains(p) && 0 <= m < n && edges.contains((p, m)) ==> v.contains(m),
        is_walk(edges, n, w),
        w.len() > 0,
        w.first() == entry,
    ensures
        v.contains(w.last()),
    decreases w.len(),
{
    if w.len() > 1 {
        let w2 = w.drop_last();
        assert(is_walk(edges, n, w2));
        lemma_walk_in_closed(edges, n, entry, v, w2);
        assert(v.contains(w[w.len() - 2]));
        assert(edges.contains((w[w.len() - 2], w[w.len() - 1])));
    }
}

/// Any set that contains `entry` and is closed under following edges to valid
/// indices contains every reachable node.
proof fn lemma_reach_closed(edges: Set<(int, int)>, n: nat, entry: int, v: Set<int>, node: int)
    requires
        v.contains(entry),
        forall|p: int, m: int|
            #![trigger v.contains(p), edges.contains((p, m))]
            v.contains(p) && 0 <= m < n && edges.contains((p, m)) ==> v.contains(m),
        reachable(edges, n, entry, node),
    ensures
        v.contains(node),
{
    let w = choose|path: Seq<int>|
        #[trigger] is_walk(edges, n, path) && path.len() > 0 && path.first() == entry
            && path.last() == node;
    lemma_walk_in_closed(edges, n, entry, v, w);
}

/// The set of nodes reachable from `entry`.
pub open spec fn reach_set(edges: Set<(int, int)>, n: nat, entry: int) -> Set<int> {
    Set::new(|i: int| reachable(edges, n, entry, i))
}

/// Whether `vals` is stable at `node`: re-applying the transfer function to
/// the joined incoming state reproduces the value stored for `node`.
pub open spec fn stable_at<R, A: Analyzer<R>>(
    d: &A,
    actions: Seq<Action>,
    edges: Set<(int, int)>,
    vals: Map<int, R>,
    node: int,
) -> bool {
    vals[node] == d.transfer_spec(actions[node], join_below(d, edges, vals, node, actions.len()))
}

/// Whether `vals` is a solution of the analysis: it covers exactly the nodes
/// reachable from `entry` and is stable at every one of them.
pub open spec fn is_solution<R, A: Analyzer<R>>(
    d: &A,
    actions: Seq<Action>,
    edges: Set<(int, int)>,
    entry: int,
    vals: Map<int, R>,
) -> bool {
    &&& vals.dom() == reach_set(edges, actions.len(), entry)
    &&& forall|i: int| #[trigger] vals.dom().contains(i) ==> stable_at(d, actions, edges, vals, i)
}

/// Whether `vals` is the least solution: a solution that lies at or below
/// every other solution, node by node, in the lattice order.
pub open spec fn least_solution<R, A: Analyzer<R>>(
    d: &A,
    actions: Seq<Action>,
    edges: Set<(int, int)>,
    entry: int,
    vals: Map<int, R>,
) -> bool {
    &&& is_solution(d, actions, edges, entry, vals)
    &&& forall|other: Map<int, R>|
        #[trigger] is_solution(d, actions, edges, entry, other) ==> forall|i: int|
            vals.dom().contains(i) ==> d.leq_spec(vals[i], other[i])
}

/// The least solution is unique: any two of them agree everywhere.
///
/// The engine reaches the least solution whatever extraction discipline its
/// worklist uses, so a run with the stack discipline and a run with the queue
/// discipline return identical result maps.
pub proof fn lemma_least_solution_unique<R, A: Analyzer<R>>(
    d: &A,
    actions: Seq<Action>,
    edges: Set<(int, int)>,
    entry: int,
    m1: Map<int, R>,
    m2: Map<int, R>,
)
    requires
        least_solution(d, actions, edges, entry, m1),
        least_solution(d, actions, edges, entry, m2),
    ensures
        m1 == m2,
{
    assert forall|i: int| m1.dom().contains(i) implies m1[i] == m2[i] by {
        assert(is_solution(d, actions, edges, entry, m2));
        assert(is_solution(d, actions, edges, entry, m1));
        assert(d.leq_spec(m1[i], m2[i]));
        assert(m2.dom().contains(i));
        assert(d.leq_spec(m2[i], m1[i]));
        d.lemma_leq_antisym(m1[i], m2[i]);
    }
    assert(m1 =~= m2);
}

/// The join is commutative: merging states arriving from two neighbours does
/// not depend on which is taken first.
pub proof fn lemma_join_comm<R, A: Analyzer<R>>(d: &A, a: R, b: R)
    ensures
        d.join_spec(a, b) == d.join_spec(b, a),
{
    d.lemma_join_upper(a, b);
    d.lemma_join_upper(b, a);
    d.lemma_join_least(a, b, d.join_spec(b, a));
    d.lemma_join_least(b, a, d.join_spec(a, b));
    d.lemma_leq_antisym(d.join_spec(a, b), d.join_spec(b, a));
}

/// The join is associative: a multi-way merge may be bracketed either way.
pub proof fn lemma_join_assoc<R, A: Analyzer<R>>(d: &A, a: R, b: R, c: R)
    ensures
        d.join_spec(a, d.join_spec(b, c)) == d.join_spec(d.join_spec(a, b), c),
{
    let bc = d.join_spec(b, c);
    let ab = d.join_spec(a, b);
    let l = d.join_spec(a, bc);
    let r = d.join_spec(ab, c);
    d.lemma_join_upper(a, bc);
    d.lemma_join_upper(b, c);
    d.lemma_join_upper(ab, c);
    d.lemma_join_upper(a, b);
    d.lemma_leq_trans(a, ab, r);
    d.lemma_leq_trans(b, ab, r);
    d.lemma_join_least(b, c, r);
    d.lemma_join_least(a, bc, r);
    d.lemma_leq_trans(b, bc, l);
    d.lemma_leq_trans(c, bc, l);
    d.lemma_join_least(a, b, l);
    d.lemma_join_least(ab, c, l);
    d.lemma_leq_antisym(l, r);
}

/// Whether each value of `chain` lies strictly below the next in the lattice
/// order.
pub open spec fn strictly_ascending<R, A: Analyzer<R>>(d: &A, chain: Seq<R>) -> bool {
    forall|i: int|
        0 <= i < chain.len() - 1 ==> #[trigger] d.leq_spec(chain[i], chain[i + 1]) && chain[i]
            != chain[i + 1]
}

/// Over a finite-height lattice a strictly ascending chain holds at most as
/// many values as the lattice's height: each step strictly raises the rank,
/// and every rank lies below the height.  During a run, the values the engine
/// assigns to one node form such a chain, so a node is assigned at most
/// `height` distinct values before it is stable.
pub proof fn lemma_ascending_chain_bounded<R, A: Analyzer<R>>(d: &A, chain: Seq<R>)
    requires
        strictly_ascending(d, chain),
    ensures
        chain.len() <= d.height_spec(),
{
    if chain.len() > 0 {
        lemma_chain_rank(d, chain, chain.len() - 1);
        d.lemma_rank_bound(chain[chain.len() - 1]);
    }
}

proof fn lemma_chain_rank<R, A: Analyzer<R>>(d: &A, chain: Seq<R>, i: int)
    requires
        0 <= i < chain.len(),
        strictly_ascending(d, chain),
    ensures
        d.rank_spec(chain[i]) >= i,
    decreases i,
{
    if i > 0 {
        lemma_chain_rank(d, chain, i - 1);
        let j = i - 1;
        assert(d.leq_spec(chain[j], chain[j + 1]) && chain[j] != chain[j + 1]);
        d.lemma_rank_strict(chain[i - 1], chain[i]);
    }
}

/// Two maps that agree on every node feeding `node` give `node` the same
/// joined incoming state.
proof fn lemma_join_below_frame<R, A: Analyzer<R>>(
    d: &A,
    edges: Set<(int, int)>,
    v1: Map<int, R>,
    v2: Map<int, R>,
    node: int,
    k: nat,
)
    requires
        forall|j: int|
            0 <= j < k && edge_into(edges, d.is_forward(), node, j) ==> #[trigger] value_of(
                d,
                v1,
                j,
            ) == value_of(d, v2, j),
    ensures
        join_below(d, edges, v1, node, k) == join_below(d, edges, v2, node, k),
    decreases k,
{
    if k > 0 {
        lemma_join_below_frame(d, edges, v1, v2, node, (k - 1) as nat);
    }
}

/// The joined incoming state is monotone in the value map.
proof fn lemma_join_below_monotone<R, A: Analyzer<R>>(
    d: &A,
    edges: Set<(int, int)>,
    v1: Map<int, R>,
    v2: Map<int, R>,
    node: int,
    k: nat,
)
    requires
        forall|j: int|
            0 <= j < k ==> d.leq_spec(
                #[trigger] value_of(d, v1, j),
                value_of(d, v2, j),
            ),
    ensures
        d.leq_spec(join_below(d, edges, v1, node, k), join_below(d, edges, v2, node, k)),
    decreases k,
{
    if k == 0 {
        d.lemma_leq_refl(d.initial_spec());
    } else {
        lemma_join_below_monotone(d, edges, v1, v2, node, (k - 1) as nat);
        let p1 = join_below(d, edges, v1, node, (k - 1) as nat);
        let p2 = join_below(d, edges, v2, node, (k - 1) as nat);
        if edge_into(edges, d.is_forward(), node, k - 1) {
            let x1 = value_of(d, v1, k - 1);
            let x2 = value_of(d, v2, k - 1);
            d.lemma_join_upper(p2, x2);
            d.lemma_leq_trans(p1, p2, d.join_spec(p2, x2));
            d.lemma_leq_trans(x1, x2, d.join_spec(p2, x2));
            d.lemma_join_least(p1, x1, d.join_spec(p2, x2));
        }
    }
}

/// How far `node`'s value still is from the top of the lattice.
pub open spec fn gap<R, A: Analyzer<R>>(d: &A, vals: Map<int, R>, j: int) -> nat {
    (d.height_spec() - d.rank_spec(value_of(d, vals, j))) as nat
}

/// The total remaining ascent of the first `k` nodes: the engine's
/// termination measure.
pub open spec fn potential<R, A: Analyzer<R>>(d: &A, vals: Map<int, R>, k: nat) -> nat
    decreases k,
{
    if k == 0 {
        0
    } else {
        potential(d, vals, (k - 1) as nat) + gap(d, vals, k - 1)
    }
}

proof fn lemma_potential_frame<R, A: Analyzer<R>>(
    d: &A,
    v1: Map<int, R>,
    v2: Map<int, R>,
    node: int,
    k: nat,
)
    requires
        forall|j: int| j != node ==> #[trigger] value_of(d, v1, j) == value_of(d, v2, j),
        node < 0 || node >= k,
    ensures
        potential(d, v1, k) == potential(d, v2, k),
    decreases k,
{
    if k > 0 {
        lemma_potential_frame(d, v1, v2, node, (k - 1) as nat);
    }
}

/// Raising the rank of one node's value strictly lowers the termination
/// measure.
proof fn lemma_potential_decreases<R, A: Analyzer<R>>(
    d: &A,
    v1: Map<int, R>,
    v2: Map<int, R>,
    node: int,
    k: nat,
)
    requires
        forall|j: int| j != node ==> #[trigger] value_of(d, v1, j) == value_of(d, v2, j),
        d.rank_spec(value_of(d, v1, node)) < d.rank_spec(value_of(d, v2, node)),
        0 <= node < k,
    ensures
        potential(d, v2, k) < potential(d, v1, k),
    decreases k,
{
    d.lemma_rank_bound(value_of(d, v1, node));
    d.lemma_rank_bound(value_of(d, v2, node));
    if node == k - 1 {
        lemma_potential_frame(d, v1, v2, node, (k - 1) as nat);
    } else {
        lemma_potential_decreases(d, v1, v2, node, (k - 1) as nat);
    }
}

/// How many slots of `s` hold `true`.
spec fn count_true(s: Seq<bool>) -> nat
    decreases s.len(),
{
    if s.len() == 0 {
        0
    } else {
        count_true(s.drop_last()) + if s.last() {
            1nat
        } else {
            0nat
        }
    }
}

proof fn lemma_count_true_le(s: Seq<bool>)
    ensures
        count_true(s) <= s.len(),
    decreases s.len(),
{
    if s.len() > 0 {
        lemma_count_true_le(s.drop_last());
    }
}

proof fn lemma_count_true_update(s: Seq<bool>, i: int)
    requires
        0 <= i < s.len(),
        !s[i],
    ensures
        count_true(s.update(i, true)) == count_true(s) + 1,
    decreases s.len(),
{
    let t = s.update(i, true);
    if i == s.len() - 1 {
        assert(t.drop_last() =~= s.drop_last());
    } else {
        assert(t.drop_last() =~= s.drop_last().update(i, true));
        lemma_count_true_update(s.drop_last(), i);
    }
}

/// Removing one end of a duplicate-free sequence removes exactly that member.
proof fn lemma_drop_last_members(p: Seq<NodeId>)
    requires
        p.no_duplicates(),
        p.len() > 0,
    ensures
        p.drop_last().no_duplicates(),
        forall|y: NodeId| p.drop_last().contains(y) <==> (p.contains(y) && y != p.last()),
{
    let q = p.drop_last();
    assert forall|y: NodeId| q.contains(y) implies p.contains(y) && y != p.last() by {
        let k = choose|k: int| 0 <= k < q.len() && q[k] == y;
        assert(p[k] == y);
        assert(p[k] != p[p.len() - 1]);
    }
    assert forall|y: NodeId| p.contains(y) && y != p.last() implies q.contains(y) by {
        let k = choose|k: int| 0 <= k < p.len() && p[k] == y;
        assert(k != p.len() - 1);
        assert(q[k] == y);
    }
}

proof fn lemma_drop_first_members(p: Seq<NodeId>)
    requires
        p.no_duplicates(),
        p.len() > 0,
    ensures
        p.drop_first().no_duplicates(),
        forall|y: NodeId| p.drop_first().contains(y) <==> (p.contains(y) && y != p.first()),
{
    let q = p.drop_first();
    assert forall|y: NodeId| q.contains(y) implies p.contains(y) && y != p.first() by {
        let k = choose|k: int| 0 <= k < q.len() && q[k] == y;
        assert(p[k + 1] == y);
        assert(p[k + 1] != p[0]);
    }
    assert forall|y: NodeId| p.contains(y) && y != p.first() implies q.contains(y) by {
        let k = choose|k: int| 0 <= k < p.len() && p[k] == y;
        assert(k != 0);
        assert(q[k - 1] == y);
    }
}

/// Computes the joined state arriving at `node`, folding the feeding nodes'
/// values in index order from the initial value.
fn joined_value<R, A: Analyzer<R>>(
    g: &petgraph::graph::DiGraph<Action, u32>,
    d: &A,
    entries: &Vec<Option<R>>,
    node: NodeId,
    forward: bool,
) -> (r: R)
    requires
        entries@.len() == graph_actions(*g).len(),
        node < graph_actions(*g).len(),
        forward == d.is_forward(),
    ensures
        r == join_below(
            d,
            graph_edges(*g),
            entries_map(entries@),
            node as int,
            graph_actions(*g).len(),
        ),
{
    let ghost edges = graph_edges(*g);
    let ghost m = entries_map(entries@);
    let n = entries.len();
    let mut acc = d.initial_value();
    for j in 0..n
        invariant
            n == entries@.len(),
            n == graph_actions(*g).len(),
            node < n,
            forward == d.is_forward(),
            edges == graph_edges(*g),
            m == entries_map(entries@),
            acc == join_below(d, edges, m, node as int, j as nat),
    {
        let feeds = if forward {
            has_edge(g, j, node)
        } else {
            has_edge(g, node, j)
        };
        if feeds {
            let vj = match &entries[j] {
                Some(v) => d.clone_value(v),
                None => d.initial_value(),
            };
            proof {
                assert(vj == value_of(d, m, j as int));
            }
            acc = d.join(&acc, &vj);
        }
    }
    acc
}

/// The nodes reachable from `entry`, discovered by an iterative traversal
/// with an explicit pending list, each exactly once.
#[verifier::rlimit(50)]
fn reachable_nodes(g: &petgraph::graph::DiGraph<Action, u32>, entry: NodeId) -> (r: Vec<NodeId>)
    requires
        entry < graph_actions(*g).len(),
    ensures
        r@.no_duplicates(),
        forall|k: int|
            0 <= k < r@.len() ==> reachable(
                graph_edges(*g),
                graph_actions(*g).len(),
                entry as int,
                #[trigger] r@[k] as int,
            ),
        forall|i: int|
            reachable(graph_edges(*g), graph_actions(*g).len(), entry as int, i) ==> r@.contains(
                i as usize,
            ),
        forall|k: int| 0 <= k < r@.len() ==> (#[trigger] r@[k] as int) < graph_actions(*g).len(),
{
    let ghost edges = graph_edges(*g);
    let ghost n = graph_actions(*g).len();
    let nn = node_count(g);
    let mut visited: Vec<bool> = Vec::new();
    for idx in 0..nn
        invariant
            visited@.len() == idx,
            forall|j: int| 0 <= j < idx ==> !(#[trigger] visited@[j]),
    {
        visited.push(false);
    }
    let ghost base = visited@;
    proof {
        assert(base =~= Seq::new(n, |j: int| false));
        lemma_count_true_zero(n);
    }
    let mut order: Vec<NodeId> = Vec::new();
    let mut stack: Vec<NodeId> = Vec::new();
    visited.set(entry, true);
    stack.push(entry);
    order.push(entry);
    proof {
        lemma_reach_entry(edges, n, entry as int);
        lemma_count_true_update(base, entry as int);
        assert(order@[0] == entry);
        assert(order@.contains(entry));
        assert forall|j: int| 0 <= j < n && visited@[j] implies order@.contains(j as usize) by {
            assert(j == entry as int);
        }
    }
    loop
        invariant
            nn == n,
            entry < n,
            visited@.len() == n,
            edges == graph_edges(*g),
            n == graph_actions(*g).len(),
            order@.no_duplicates(),
            count_true(visited@) == order@.len(),
            order@.len() <= n,
            forall|k: int|
                0 <= k < order@.len() ==> (#[trigger] order@[k] as int) < n
                    && visited@[order@[k] as int],
            forall|j: int| 0 <= j < n && #[trigger] visited@[j] ==> order@.contains(j as usize),
            forall|k: int|
                0 <= k < order@.len() ==> reachable(
                    edges,
                    n,
                    entry as int,
                    #[trigger] order@[k] as int,
                ),
            forall|k: int|
                0 <= k < stack@.len() ==> (#[trigger] stack@[k] as int) < n
                    && visited@[stack@[k] as int],
            visited@[entry as int],
            forall|p: int, m: int|
                #![trigger visited@[p], edges.contains((p, m))]
                0 <= p < n && 0 <= m < n && visited@[p] && !stack@.contains(p as usize)
                    && edges.contains((p, m)) ==> visited@[m],
        ensures
            stack@.len() == 0,
            visited@.len() == n,
            order@.no_duplicates(),
            forall|k: int|
                0 <= k < order@.len() ==> (#[trigger] order@[k] as int) < n
                    && visited@[order@[k] as int],
            forall|j: int| 0 <= j < n && #[trigger] visited@[j] ==> order@.contains(j as usize),
            forall|k: int|
                0 <= k < order@.len() ==> reachable(
                    edges,
                    n,
                    entry as int,
                    #[trigger] order@[k] as int,
                ),
            visited@[entry as int],
            forall|p: int, m: int|
                #![trigger visited@[p], edges.contains((p, m))]
                0 <= p < n && 0 <= m < n && visited@[p] && edges.contains((p, m)) ==> visited@[m],
        decreases n - order@.len(), stack@.len(),
    {
        let ghost order_at_top = order@;
        let ghost stack_at_top = stack@;
        match stack.pop() {
            None => {
                break ;
            },
            Some(v) => {
                proof {
                    assert(stack_at_top[stack_at_top.len() - 1] == v);
                    assert((v as int) < n && visited@[v as int]);
                    assert forall|x: NodeId| stack_at_top.contains(x) && x != v implies stack@.contains(
                        x,
                    ) by {
                        let k = choose|k: int|
                            0 <= k < stack_at_top.len() && stack_at_top[k] == x;
                        assert(stack@[k] == x);
                    }
                }
                let ghost stack0 = stack@;
                let succs = successors(g, v);
                for t in 0..succs.len()
                    invariant
                        nn == n,
                        entry < n,
                        v < n,
                        visited@.len() == n,
                        edges == graph_edges(*g),
                        n == graph_actions(*g).len(),
                        visited@[v as int],
                        reachable(edges, n, entry as int, v as int),
                        forall|k: int|
                            0 <= k < succs@.len() ==> (#[trigger] succs@[k] as int) < n
                                && edges.contains((v as int, succs@[k] as int)),
                        order@.no_duplicates(),
                        count_true(visited@) == order@.len(),
                        order@.len() <= n,
                        forall|k: int|
                            0 <= k < order@.len() ==> (#[trigger] order@[k] as int) < n
                                && visited@[order@[k] as int],
                        forall|j: int|
                            0 <= j < n && #[trigger] visited@[j] ==> order@.contains(j as usize),
                        forall|k: int|
                            0 <= k < order@.len() ==> reachable(
                                edges,
                                n,
                                entry as int,
                                #[trigger] order@[k] as int,
                            ),
                        forall|k: int|
                            0 <= k < stack@.len() ==> (#[trigger] stack@[k] as int) < n
                                && visited@[stack@[k] as int],
                        visited@[entry as int],
                        forall|p: int, m: int|
                            #![trigger visited@[p], edges.contains((p, m))]
                            0 <= p < n && 0 <= m < n && visited@[p] && p != v as int
                                && !stack@.contains(p as usize) && edges.contains((p, m))
                                ==> visited@[m],
                        forall|k: int| 0 <= k < t ==> visited@[#[trigger] succs@[k] as int],
                        order@.len() >= order_at_top.len(),
                        order@.len() > order_at_top.len() || stack@ == stack0,
                {
                    let m = succs[t];
                    if !visited[m] {
                        proof {
                            lemma_count_true_update(visited@, m as int);
                            lemma_reach_step(edges, n, entry as int, v as int, m as int);
                            assert(!order@.contains(m)) by {
                                if order@.contains(m) {
                                    let k = choose|k: int|
                                        0 <= k < order@.len() && order@[k] == m;
                                    assert(visited@[order@[k] as int]);
                                }
                            }
                            assert(order@.push(m).no_duplicates()) by {
                                assert forall|k1: int, k2: int|
                                    0 <= k1 < k2 < order@.push(m).len() implies order@.push(m)[k1]
                                    != order@.push(m)[k2] by {
                                    if k2 == order@.len() {
                                        assert(order@.push(m)[k1] == order@[k1]);
                                        assert(order@.contains(order@[k1]));
                                    }
                                }
                            }
                        }
                        let ghost order_before = order@;
                        let ghost visited_before = visited@;
                        let ghost stack_before = stack@;
                        visited.set(m, true);
                        order.push(m);
                        stack.push(m);
                        proof {
                            lemma_count_true_le(visited@);
                            assert(stack@[stack@.len() - 1] == m);
                            assert(stack@.contains(m));
                            assert forall|x: NodeId| stack_before.contains(x) implies stack@.contains(
                                x,
                            ) by {
                                let k = choose|k: int|
                                    0 <= k < stack_before.len() && stack_before[k] == x;
                                assert(stack@[k] == x);
                            }
                            assert forall|j: int|
                                0 <= j < n && #[trigger] visited@[j] implies order@.contains(
                                j as usize,
                            ) by {
                                if j == m as int {
                                    assert(order@[order@.len() - 1] == m);
                                } else {
                                    assert(visited_before[j]);
                                    assert(order_before.contains(j as usize));
                                    let k = choose|k: int|
                                        0 <= k < order_before.len() && order_before[k]
                                            == j as usize;
                                    assert(order@[k] == j as usize);
                                }
                            }
                        }
                    }
                }
                proof {
                    assert forall|p: int, m: int|
                        #![trigger visited@[p], edges.contains((p, m))]
                        0 <= p < n && 0 <= m < n && visited@[p] && !stack@.contains(p as usize)
                            && edges.contains((p, m)) implies visited@[m] by {
                        if p == v as int {
                            assert(succs@.contains(m as usize));
                            let k = choose|k: int| 0 <= k < succs@.len() && succs@[k] == m as usize;
                            assert(visited@[succs@[k] as int]);
                        }
                    }
                }
            },
        }
    }
    proof {
        let vset = Set::new(|i: int| 0 <= i < n && visited@[i]);
        assert forall|i: int| reachable(edges, n, entry as int, i) implies order@.contains(
            i as usize,
        ) by {
            assert(vset.contains(entry as int));
            lemma_reach_closed(edges, n, entry as int, vset, i);
            assert(visited@[i]);
        }
    }
    order
}

proof fn lemma_count_true_zero(n: nat)
    ensures
        count_true(Seq::new(n, |j: int| false)) == 0,
    decreases n,
{
    if n > 0 {
        assert(Seq::new(n, |j: int| false).drop_last() =~= Seq::new((n - 1) as nat, |j: int| false));
        lemma_count_true_zero((n - 1) as nat);
    }
}

/// A pointwise bound between value maps carries through the transfer of the
/// joined incoming state.
proof fn lemma_f_monotone_at<R, A: Analyzer<R>>(
    d: &A,
    actions: Seq<Action>,
    edges: Set<(int, int)>,
    v1: Map<int, R>,
    v2: Map<int, R>,
    i: int,
)
    requires
        0 <= i < actions.len(),
        forall|j: int|
            0 <= j < actions.len() ==> d.leq_spec(
                #[trigger] value_of(d, v1, j),
                value_of(d, v2, j),
            ),
    ensures
        d.leq_spec(
            d.transfer_spec(actions[i], join_below(d, edges, v1, i, actions.len())),
            d.transfer_spec(actions[i], join_below(d, edges, v2, i, actions.len())),
        ),
{
    lemma_join_below_monotone(d, edges, v1, v2, i, actions.len());
    d.lemma_transfer_monotone(
        actions[i],
        join_below(d, edges, v1, i, actions.len()),
        join_below(d, edges, v2, i, actions.len()),
    );
}


/// Why an analysis run failed.
#[derive(Debug, Clone, PartialEq, Eq)]
pub enum AnalysisError {
    /// The flow graph has no nodes; the engine never runs on an empty domain.
    EmptyGraph,
    /// The analysis selector does not name a registered analysis domain; the
    /// offending name is carried along.
    UnknownAnalysis(String),
}

/// The node-to-value map an analysis run produces: one entry per node
/// reachable from the entry.
pub struct AnalysisResult<R> {
    entries: Vec<Option<R>>,
}

/// The map a sequence of optional values stands for: node `i` maps to `v`
/// exactly when slot `i` holds `Some(v)`.
pub open spec fn entries_map<R>(s: Seq<Option<R>>) -> Map<int, R> {
    Map::new(|i: int| 0 <= i < s.len() && s[i] is Some, |i: int| s[i]->0)
}

impl<R> AnalysisResult<R> {
    /// The node-to-value map this result holds.
    pub closed spec fn as_map(&self) -> Map<int, R> {
        entries_map(self.entries@)
    }

    /// How many nodes the analysed graph had.
    pub closed spec fn size_spec(&self) -> nat {
        self.entries@.len()
    }

    /// The number of nodes of the analysed graph (reachable or not).
    pub fn len(&self) -> (n: usize)
        ensures
            n == self.size_spec(),
    {
        self.entries.len()
    }

    /// The value computed for `id`, or `None` when `id` is out of range or
    /// unreachable from the entry.
    pub fn get(&self, id: NodeId) -> (r: Option<&R>)
        ensures
            match r {
                Some(v) => self.as_map().dom().contains(id as int) && *v == self.as_map().index(
                    id as int,
                ),
                None => !self.as_map().dom().contains(id as int),
            },
    {
        if id < self.entries.len() {
            self.entries[id].as_ref()
        } else {
            None
        }
    }
}

/// What a run of the engine promises: an empty graph is rejected with the
/// empty-graph error and nothing else; a non-empty graph yields the least
/// solution, sized to the graph.
pub open spec fn engine_post<R, A: Analyzer<R>>(
    d: &A,
    actions: Seq<Action>,
    edges: Set<(int, int)>,
    entry: int,
    r: Result<AnalysisResult<R>, AnalysisError>,
) -> bool {
    match r {
        Result::Ok(res) => {
            &&& actions.len() > 0
            &&& least_solution(d, actions, edges, entry, res.as_map())
            &&& res.size_spec() == actions.len()
        },
        Result::Err(e) => actions.len() == 0 && e is EmptyGraph,
    }
}

/// Runs the fixpoint engine with worklist discipline `W`: rejects an empty
/// graph, seeds a fresh worklist with the nodes reachable from `entry` (each
/// initialised to the domain's initial value), then repeatedly extracts a
/// node, recomputes its value from the joined state of the nodes feeding it,
/// and, when the value changed, schedules the nodes depending on it.  On a
/// non-empty graph the returned map is the least solution of the analysis,
/// whatever the extraction discipline.
#[verifier::rlimit(50)]
pub fn solve<W: Worklist, R, A: Analyzer<R>>(
    graph: &petgraph::graph::DiGraph<Action, u32>,
    entry: NodeId,
    domain: &A,
) -> (r: Result<AnalysisResult<R>, AnalysisError>)
    requires
        graph_actions(*graph).len() == 0 || entry < graph_actions(*graph).len(),
    ensures
        engine_post(domain, graph_actions(*graph), graph_edges(*graph), entry as int, r),
{
    let ghost actions = graph_actions(*graph);
    let ghost edges = graph_edges(*graph);
    let ghost n = actions.len();
    let ghost rset = reach_set(edges, n, entry as int);
    let ghost fwd = domain.is_forward();
    let nn = node_count(graph);
    if nn == 0 {
        return Err(AnalysisError::EmptyGraph);
    }
    let order = reachable_nodes(graph, entry);
    let mut entries: Vec<Option<R>> = Vec::new();
    for idx in 0..nn
        invariant
            entries@.len() == idx,
            forall|j: int| 0 <= j < idx ==> (#[trigger] entries@[j]) is None,
    {
        entries.push(None);
    }
    proof {
        assert forall|j: int| 0 <= j < n implies (rset.contains(j) <==> order@.contains(
            j as usize,
        )) by {
            if order@.contains(j as usize) {
                let k = choose|k: int| 0 <= k < order@.len() && order@[k] == j as usize;
                assert(reachable(edges, n, entry as int, order@[k] as int));
            }
        }
    }
    let mut t: usize = 0;
    while t < order.len()
        invariant
            t <= order@.len(),
            nn == n,
            entries@.len() == n,
            n == graph_actions(*graph).len(),
            edges == graph_edges(*graph),
            actions == graph_actions(*graph),
            order@.no_duplicates(),
            forall|k: int| 0 <= k < order@.len() ==> (#[trigger] order@[k] as int) < n,
            forall|j: int|
                0 <= j < n ==> ((#[trigger] entries@[j]) is Some <==> exists|k: int|
                    0 <= k < t && order@[k] == j as usize),
            forall|j: int|
                0 <= j < n && (#[trigger] entries@[j]) is Some ==> entries@[j]->0
                    == domain.initial_spec(),
        decreases order@.len() - t,
    {
        let id = order[t];
        let ghost entries0 = entries@;
        entries.set(id, Some(domain.initial_value()));
        proof {
            assert forall|j: int|
                0 <= j < n implies ((#[trigger] entries@[j]) is Some <==> exists|k: int|
                0 <= k < t + 1 && order@[k] == j as usize) by {
                if j == id as int {
                    assert(order@[t as int] == j as usize);
                    assert((t as int) < t + 1 && order@[t as int] == j as usize);
                } else {
                    assert(entries@[j] == entries0[j]);
                }
            }
        }
        t = t + 1;
    }
    proof {
        assert forall|j: int| 0 <= j < n implies ((#[trigger] entries@[j]) is Some <==> rset.contains(
            j,
        )) by {
            if entries@[j] is Some {
                let k = choose|k: int| 0 <= k < order@.len() && order@[k] == j as usize;
                assert(order@.contains(j as usize));
            }
            if rset.contains(j) {
                assert(order@.contains(j as usize));
                let k = choose|k: int| 0 <= k < order@.len() && order@[k] == j as usize;
            }
        }
    }
    let mut w = W::new();
    let mut t2: usize = 0;
    while t2 < order.len()
        invariant
            t2 <= order@.len(),
            order@.no_duplicates(),
            forall|k: int| 0 <= k < order@.len() ==> (#[trigger] order@[k] as int) < n,
            w.pending() == order@.subrange(0, t2 as int),
        decreases order@.len() - t2,
    {
        let ghost pend0 = w.pending();
        proof {
            assert(!pend0.contains(order@[t2 as int])) by {
                if pend0.contains(order@[t2 as int]) {
                    let k = choose|k: int| 0 <= k < pend0.len() && pend0[k] == order@[t2 as int];
                    assert(order@[k] == order@[t2 as int]);
                }
            }
        }
        w.insert(order[t2]);
        proof {
            assert(w.pending() =~= order@.subrange(0, t2 + 1));
        }
        t2 = t2 + 1;
    }
    proof {
        assert(w.pending() =~= order@);
        assert forall|i: int|
            rset.contains(i) implies w.pending().contains(i as usize) by {
            assert(order@.contains(i as usize));
        }
        assert forall|i: int| #[trigger] rset.contains(i) implies domain.leq_spec(
            entries_map(entries@)[i],
            domain.transfer_spec(
                actions[i],
                join_below(domain, edges, entries_map(entries@), i, n),
            ),
        ) by {
            assert(entries@[i] is Some);
            assert(entries_map(entries@)[i] == domain.initial_spec());
            domain.lemma_initial_bottom(
                domain.transfer_spec(
                    actions[i],
                    join_below(domain, edges, entries_map(entries@), i, n),
                ),
            );
        }
        assert forall|other: Map<int, R>|
            #[trigger] is_solution(domain, actions, edges, entry as int, other) implies (forall|i: int|
            rset.contains(i) ==> domain.leq_spec(entries_map(entries@)[i], other[i])) by {
            assert forall|i: int| rset.contains(i) implies domain.leq_spec(
                entries_map(entries@)[i],
                other[i],
            ) by {
                assert(entries@[i] is Some);
                assert(entries_map(entries@)[i] == domain.initial_spec());
                domain.lemma_initial_bottom(other[i]);
            }
        }
    }
    let dir = domain.direction();
    let forward = match dir {
        AnalysisDirection::Forward => true,
        AnalysisDirection::Backward => false,
    };
    loop
        invariant
            nn == n,
            entry < n,
            n == graph_actions(*graph).len(),
            edges == graph_edges(*graph),
            actions == graph_actions(*graph),
            rset == reach_set(edges, n, entry as int),
            forward == domain.is_forward(),
            fwd == domain.is_forward(),
            entries@.len() == n,
            forall|j: int| 0 <= j < n ==> ((#[trigger] entries@[j]) is Some <==> rset.contains(j)),
            w.pending().no_duplicates(),
            forall|k: int|
                0 <= k < w.pending().len() ==> rset.contains(#[trigger] w.pending()[k] as int),
            forall|i: int|
                #[trigger] rset.contains(i) && !w.pending().contains(i as usize) ==> stable_at(
                    domain,
                    actions,
                    edges,
                    entries_map(entries@),
                    i,
                ),
            forall|i: int|
                #[trigger] rset.contains(i) ==> domain.leq_spec(
                    entries_map(entries@)[i],
                    domain.transfer_spec(
                        actions[i],
                        join_below(domain, edges, entries_map(entries@), i, n),
                    ),
                ),
            forall|other: Map<int, R>|
                #[trigger] is_solution(domain, actions, edges, entry as int, other) ==> (forall|i: int|
                rset.contains(i) ==> domain.leq_spec(entries_map(entries@)[i], other[i])),
        ensures
            w.pending().len() == 0,
            entries@.len() == n,
            forall|j: int| 0 <= j < n ==> ((#[trigger] entries@[j]) is Some <==> rset.contains(j)),
            forall|i: int|
                #[trigger] rset.contains(i) ==> stable_at(
                    domain,
                    actions,
                    edges,
                    entries_map(entries@),
                    i,
                ),
            forall|other: Map<int, R>|
                #[trigger] is_solution(domain, actions, edges, entry as int, other) ==> (forall|i: int|
                rset.contains(i) ==> domain.leq_spec(entries_map(entries@)[i], other[i])),
        decreases potential(domain, entries_map(entries@), n), w.pending().len(),
    {
        let ghost pend0 = w.pending();
        let ghost tof = w.takes_oldest_first();
        let next = w.extract();
        match next {
            None => {
                break ;
            },
            Some(node) => {
                proof {
                    if tof {
                        assert(node == pend0.first());
                        assert(pend0.contains(node));
                        lemma_drop_first_members(pend0);
                    } else {
                        assert(node == pend0.last());
                        assert(pend0.contains(node));
                        lemma_drop_last_members(pend0);
                    }
                    assert(forall|y: NodeId|
                        w.pending().contains(y) <==> (pend0.contains(y) && y != node));
                    let k = choose|k: int| 0 <= k < pend0.len() && pend0[k] == node;
                    assert(rset.contains(node as int));
                    assert((node as int) < n);
                }
                let joined = joined_value(graph, domain, &entries, node, forward);
                let act = action_of(graph, node);
                let newv = domain.transfer(act, &joined);
                let ghost m0 = entries_map(entries@);
                proof {
                    assert(entries@[node as int] is Some);
                    assert(m0.dom().contains(node as int));
                    assert(m0[node as int] == entries@[node as int]->0);
                    assert(newv == domain.transfer_spec(
                        actions[node as int],
                        join_below(domain, edges, m0, node as int, n),
                    ));
                }
                let same = match &entries[node] {
                    Some(cur) => domain.eq_value(&newv, cur),
                    None => unreached(),
                };
                if same {
                    proof {
                        assert(stable_at(domain, actions, edges, m0, node as int));
                        assert forall|i: int|
                            #[trigger] rset.contains(i) && !w.pending().contains(i as usize)
                            implies stable_at(domain, actions, edges, m0, i) by {
                            if i != node as int {
                                assert(!pend0.contains(i as usize));
                            }
                        }
                    }
                } else {
                    let ghost entries_before = entries@;
                    entries.set(node, Some(newv));
                    let ghost m1 = entries_map(entries@);
                    proof {
                        assert(m1 =~= m0.insert(node as int, newv));
                        assert(m0[node as int] != newv);
                        assert(domain.leq_spec(m0[node as int], newv));
                        domain.lemma_rank_strict(m0[node as int], newv);
                        assert forall|j: int|
                            j != node as int implies #[trigger] value_of(domain, m0, j)
                            == value_of(domain, m1, j) by {
                            assert(entries@[j] == entries_before[j] || !(0 <= j < n));
                        }
                        assert(value_of(domain, m0, node as int) == m0[node as int]);
                        assert(value_of(domain, m1, node as int) == newv);
                        lemma_potential_decreases(domain, m0, m1, node as int, n);
                        assert(potential(domain, m1, n) < potential(domain, m0, n));
                        // the map only rose
                        assert forall|j: int|
                            0 <= j < n implies domain.leq_spec(
                            #[trigger] value_of(domain, m0, j),
                            value_of(domain, m1, j),
                        ) by {
                            if j == node as int {
                                assert(domain.leq_spec(m0[node as int], newv));
                            } else {
                                domain.lemma_leq_refl(value_of(domain, m0, j));
                            }
                        }
                        // ascent is preserved
                        assert forall|i: int| #[trigger] rset.contains(i) implies domain.leq_spec(
                            m1[i],
                            domain.transfer_spec(
                                actions[i],
                                join_below(domain, edges, m1, i, n),
                            ),
                        ) by {
                            lemma_f_monotone_at(domain, actions, edges, m0, m1, i);
                            if i == node as int {
                                assert(m1[i] == newv);
                            } else {
                                assert(m1[i] == m0[i]);
                                domain.lemma_leq_trans(
                                    m1[i],
                                    domain.transfer_spec(
                                        actions[i],
                                        join_below(domain, edges, m0, i, n),
                                    ),
                                    domain.transfer_spec(
                                        actions[i],
                                        join_below(domain, edges, m1, i, n),
                                    ),
                                );
                            }
                        }
                        // leastness is preserved
                        assert forall|other: Map<int, R>|
                            #[trigger] is_solution(domain, actions, edges, entry as int, other)
                            implies (forall|i: int|
                            rset.contains(i) ==> domain.leq_spec(m1[i], other[i])) by {
                            assert(other.dom() == rset);
                            assert forall|j: int|
                                0 <= j < n implies domain.leq_spec(
                                #[trigger] value_of(domain, m0, j),
                                value_of(domain, other, j),
                            ) by {
                                if rset.contains(j) {
                                    assert(m0.dom().contains(j));
                                    assert(other.dom().contains(j));
                                    assert(domain.leq_spec(m0[j], other[j]));
                                } else {
                                    assert(!m0.dom().contains(j));
                                    assert(!other.dom().contains(j));
                                    domain.lemma_leq_refl(domain.initial_spec());
                                }
                            }
                            assert forall|i: int| rset.contains(i) implies domain.leq_spec(
                                m1[i],
                                other[i],
                            ) by {
                                if i == node as int {
                                    lemma_f_monotone_at(domain, actions, edges, m0, other, i);
                                    assert(other.dom().contains(i));
                                    assert(stable_at(domain, actions, edges, other, i));
                                    assert(other[i] == domain.transfer_spec(
                                        actions[i],
                                        join_below(domain, edges, other, i, n),
                                    ));
                                    assert(domain.leq_spec(
                                        domain.transfer_spec(
                                            actions[i],
                                            join_below(domain, edges, m0, i, n),
                                        ),
                                        other[i],
                                    ));
                                    assert(m1[i] == newv);
                                } else {
                                    assert(m1[i] == m0[i]);
                                    assert(domain.leq_spec(m0[i], other[i]));
                                }
                            }
                        }
                    }
                    let outs = if forward {
                        successors(graph, node)
                    } else {
                        predecessors(graph, node)
                    };
                    proof {
                        assert forall|k: int|
                            0 <= k < outs@.len() implies (#[trigger] outs@[k] as int) < n
                            && edge_into(edges, fwd, outs@[k] as int, node as int) by {}
                        assert forall|i: int|
                            0 <= i < n && edge_into(edges, fwd, i, node as int) implies outs@.contains(
                            i as usize,
                        ) by {}
                    }
                    let ghost pend1 = w.pending();
                    let mut t3: usize = 0;
                    while t3 < outs.len()
                        invariant
                            t3 <= outs@.len(),
                            nn == n,
                            n == graph_actions(*graph).len(),
                            edges == graph_edges(*graph),
                            actions == graph_actions(*graph),
                            rset == reach_set(edges, n, entry as int),
                            entries@.len() == n,
                            forall|j: int|
                                0 <= j < n ==> ((#[trigger] entries@[j]) is Some <==> rset.contains(
                                    j,
                                )),
                            forall|k: int|
                                0 <= k < outs@.len() ==> (#[trigger] outs@[k] as int) < n,
                            w.pending().no_duplicates(),
                            forall|k: int|
                                0 <= k < w.pending().len() ==> rset.contains(
                                    #[trigger] w.pending()[k] as int,
                                ),
                            forall|y: NodeId| pend1.contains(y) ==> w.pending().contains(y),
                            forall|k: int|
                                0 <= k < t3 && rset.contains(#[trigger] outs@[k] as int)
                                    ==> w.pending().contains(outs@[k]),
                        decreases outs@.len() - t3,
                    {
                        let mm = outs[t3];
                        let ghost pend2 = w.pending();
                        if entries[mm].is_some() {
                            w.insert(mm);
                            proof {
                                assert(rset.contains(mm as int));
                                assert(w.pending() == insert_spec(pend2, mm));
                                crate::worklist::lemma_insert_idempotent(pend2, mm);
                                assert forall|k: int|
                                    0 <= k < w.pending().len() implies rset.contains(
                                    #[trigger] w.pending()[k] as int,
                                ) by {
                                    if k < pend2.len() {
                                        assert(w.pending()[k] == pend2[k]);
                                    } else {
                                        assert(w.pending()[k] == mm);
                                    }
                                }
                                assert forall|y: NodeId|
                                    pend1.contains(y) implies w.pending().contains(y) by {
                                    assert(pend2.contains(y));
                                    let k = choose|k: int|
                                        0 <= k < pend2.len() && pend2[k] == y;
                                    assert(w.pending()[k] == y);
                                }
                                assert forall|k: int|
                                    0 <= k < t3 + 1 && rset.contains(#[trigger] outs@[k] as int)
                                    implies w.pending().contains(outs@[k]) by {
                                    if k < t3 {
                                        assert(pend2.contains(outs@[k]));
                                        let k2 = choose|k2: int|
                                            0 <= k2 < pend2.len() && pend2[k2] == outs@[k];
                                        assert(w.pending()[k2] == outs@[k]);
                                    } else {
                                        assert(w.pending().contains(mm));
                                    }
                                }
                            }
                        } else {
                            proof {
                                assert(!rset.contains(mm as int));
                            }
                        }
                        t3 = t3 + 1;
                    }
                    proof {
                        let pend3 = w.pending();
                        assert forall|i: int|
                            #[trigger] rset.contains(i) && !pend3.contains(i as usize)
                            implies stable_at(domain, actions, edges, m1, i) by {
                            assert(!pend1.contains(i as usize));
                            assert(!(pend0.contains(i as usize) && i as usize != node));
                            assert(!edge_into(edges, fwd, i, node as int)) by {
                                if edge_into(edges, fwd, i, node as int) {
                                    assert(outs@.contains(i as usize));
                                    let k = choose|k: int|
                                        0 <= k < outs@.len() && outs@[k] == i as usize;
                                    assert(rset.contains(outs@[k] as int));
                                    assert(pend3.contains(outs@[k]));
                                }
                            }
                            assert forall|j: int|
                                0 <= j < n && edge_into(edges, fwd, i, j) implies #[trigger] value_of(
                                domain,
                                m0,
                                j,
                            ) == value_of(domain, m1, j) by {
                                assert(j != node as int);
                            }
                            lemma_join_below_frame(domain, edges, m0, m1, i, n);
                            if i == node as int {
                                assert(m1[i] == newv);
                            } else {
                                assert(!pend0.contains(i as usize));
                                assert(stable_at(domain, actions, edges, m0, i));
                                assert(m1[i] == m0[i]);
                            }
                        }
                    }
                }
            },
        }
    }
    proof {
        let fm = entries_map(entries@);
        assert(fm.dom() =~= rset) by {
            assert forall|j: int| fm.dom().contains(j) implies rset.contains(j) by {}
            assert forall|j: int| rset.contains(j) implies fm.dom().contains(j) by {
                assert(0 <= j < n);
                assert(entries@[j] is Some);
            }
        }
        assert(is_solution(domain, actions, edges, entry as int, fm)) by {
            assert forall|i: int| #[trigger] fm.dom().contains(i) implies stable_at(
                domain,
                actions,
                edges,
                fm,
                i,
            ) by {
                assert(rset.contains(i));
            }
        }
        assert(least_solution(domain, actions, edges, entry as int, fm));
    }
    Ok(AnalysisResult { entries })
}

/// Resolves the analysis selector and runs the engine over the program's flow
/// graph with the queue-discipline worklist.  A graph with no nodes is always
/// rejected first; an unrecognised selector (the one registered name is
/// `"sa"`, the sign analysis) is rejected before any seeding, carrying the
/// offending name.
pub fn analyze(program: &FlowGraph, analysis: String) -> (r: Result<
    AnalysisResult<Sign>,
    AnalysisError,
>)
    requires
        graph_actions(program.0).len() == 0 || program.1 < graph_actions(program.0).len(),
    ensures
        ((r is Err) && (r->Err_0 is EmptyGraph)) <==> graph_actions(program.0).len() == 0,
        ((r is Err) && (r->Err_0 is UnknownAnalysis)) <==> (graph_actions(program.0).len() > 0
            && analysis@ != "sa"@),
        ((r is Err) && (r->Err_0 is UnknownAnalysis)) ==> r->Err_0->UnknownAnalysis_0@
            == analysis@,
        (r is Ok) ==> least_solution(
            &(SignDetecter {  }),
            graph_actions(program.0),
            graph_edges(program.0),
            program.1 as int,
            r->Ok_0.as_map(),
        ) && r->Ok_0.size_spec() == graph_actions(program.0).len(),
{
    let graph = &program.0;
    let entry = program.1;
    let n = node_count(graph);
    if n == 0 {
        return Err(AnalysisError::EmptyGraph);
    }
    let sa = String::from_str("sa");
    if analysis == sa {
        let sd = SignDetecter {  };
        solve::<FifoWorklist, Sign, SignDetecter>(graph, entry, &sd)
    } else {
        Err(AnalysisError::UnknownAnalysis(analysis))
    }
}

/// Order-independence of the fixpoint: two engine runs over the same graph,
/// entry and analysis domain return identical result maps, whatever worklist
/// discipline each run used.  Each run returns the least solution, and the
/// least solution is unique.
pub proof fn lemma_strategy_independent<R, A: Analyzer<R>>(
    d: &A,
    actions: Seq<Action>,
    edges: Set<(int, int)>,
    entry: int,
    r1: Result<AnalysisResult<R>, AnalysisError>,
    r2: Result<AnalysisResult<R>, AnalysisError>,
)
    requires
        engine_post(d, actions, edges, entry, r1),
        engine_post(d, actions, edges, entry, r2),
    ensures
        (r1 is Ok) <==> (r2 is Ok),
        (r1 is Ok) ==> r1->Ok_0.as_map() == r2->Ok_0.as_map(),
{
    if r1 is Ok {
        lemma_least_solution_unique(
            d,
            actions,
            edges,
            entry,
            r1->Ok_0.as_map(),
            r2->Ok_0.as_map(),
        );
    }
}

} // verus!
