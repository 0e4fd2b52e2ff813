//! A genome describing a continuous-time recurrent neural network.

use crate::crossover::crossover;
use crate::crossover::crossover_eq_post;
use crate::crossover::crossover_ne_post;
use crate::crossover::gene_from;
use crate::crossover::has_inno;
use crate::crossover::at_inno;
use crate::crossover::same_gene;
use crate::crossover::lemma_at_inno_bounds;
use crate::genome::NodeKind;
use crate::network::Ctrnn;
use crate::fp::abs_bits;
use crate::fp::r_add;
use crate::fp::r_mul;
use crate::rng::EvolutionEvent;
use crate::rng::ProbBinding;
use crate::specie::bisection_ids_ok;
use crate::specie::inno_head_after;
use crate::specie::inno_result;
use crate::specie::inno_seen_after;
use crate::specie::lemma_bisection_ids_ok_at;
use crate::specie::lemma_bisection_ok_after_connection;
use crate::specie::lemma_extends_trans;
use crate::specie::lemma_fresh_bisection_ok;
use crate::specie::lemma_fresh_result_not_held;
use crate::specie::pack_path;
use crate::specie::registry_extends;
use crate::specie::registry_fresh;
use crate::specie::InnoGen;
use crate::EvolutionError;
use crate::fp::r_abs;
use crate::fp::r_sub;
use crate::fp::sub_bits;
use crate::fp::R_ONE;
use crate::fp::R_ZERO;
use vstd::prelude::*;

verus! {

/// A node of a continuous-time recurrent network. The bias variant holds its
/// fixed output value as a binary64 bit pattern.
#[derive(Clone, Copy, Debug, PartialEq, Eq, Structural)]
pub enum CTRNode {
    Sensory,
    Action,
    Bias(u64),
    Internal,
}

/// An innovation-tagged weighted edge. The weight is a binary64 bit pattern.
#[derive(Clone, Copy, Debug, PartialEq, Eq, Structural, Hash)]
pub struct CTRConnection {
    pub inno: usize,
    pub from: usize,
    pub to: usize,
    pub weight: u64,
    pub enabled: bool,
}

/// How strongly an excess connection counts toward the compatibility
/// distance (the bit pattern of 1.0).
pub const EXCESS_COEFFICIENT: u64 = R_ONE;

/// How strongly a disjoint connection counts toward the compatibility
/// distance (the bit pattern of 1.0).
pub const DISJOINT_COEFFICIENT: u64 = R_ONE;

/// How strongly the average parameter difference counts toward the
/// compatibility distance (the bit pattern of 0.4).
pub const PARAM_COEFFICIENT: u64 = 0x3FD9_9999_9999_999A;

impl CTRConnection {
    /// The gene's innovation id.
    pub fn inno(&self) -> (r: usize)
        ensures
            r == self.inno,
    {
        self.inno
    }

    /// Whether this connection affects its genome's behavior.
    pub fn enabled(&self) -> (r: bool)
        ensures
            r == self.enabled,
    {
        self.enabled
    }

    /// Unconditionally enable this connection.
    pub fn enable(&mut self)
        ensures
            *final(self) == (CTRConnection { enabled: true, ..*old(self) }),
    {
        self.enabled = true;
    }

    /// Unconditionally disable this connection.
    pub fn disable(&mut self)
        ensures
            *final(self) == (CTRConnection { enabled: false, ..*old(self) }),
    {
        self.enabled = false;
    }

    /// The (from, to) path of this connection.
    pub fn path(&self) -> (r: (usize, usize))
        ensures
            r == (self.from, self.to),
    {
        (self.from, self.to)
    }

    /// The difference of the parameters of two connections sharing an
    /// innovation id: the absolute weight difference.
    pub fn param_diff(&self, other: &Self) -> (r: u64)
        ensures
            r == abs_bits(sub_bits(self.weight, other.weight)),
            !crate::fp::spec_is_nan(self.weight) && !crate::fp::spec_is_nan(other.weight) ==> r
                == abs_bits(sub_bits(other.weight, self.weight)),
            r & crate::fp::R_SIGN == 0,
    {
        proof {
            crate::fp::lemma_abs_sign(sub_bits(self.weight, other.weight));
        }
        r_abs(r_sub(self.weight, other.weight))
    }
}

impl Default for CTRConnection {
    /// An enabled zero-weight connection joining node 0 to itself, with
    /// innovation id 0.
    fn default() -> (r: Self)
        ensures
            r == (CTRConnection { inno: 0, from: 0, to: 0, weight: R_ZERO, enabled: true }),
    {
        CTRConnection { inno: 0, from: 0, to: 0, weight: R_ZERO, enabled: true }
    }
}

/// Connections ordered strictly by ascending innovation id; strictness also
/// rules out a repeated id.
pub open spec fn sorted_by_inno(s: Seq<CTRConnection>) -> bool {
    forall|i: int, j: int| 0 <= i < j < s.len() ==> s[i].inno < s[j].inno
}

/// Every connection's innovation id lies below the bound.
pub open spec fn innos_below(s: Seq<CTRConnection>, bound: int) -> bool {
    forall|i: int| 0 <= i < s.len() ==> s[i].inno < bound
}

/// What a well-formed node list looks like at each index: sensory nodes
/// first, then action nodes, one bias node, and internal nodes after it.
pub open spec fn node_ok(sensory: usize, action: usize, i: int, n: CTRNode) -> bool {
    if i < sensory {
        n is Sensory
    } else if i < sensory + action {
        n is Action
    } else if i == sensory + action {
        n is Bias
    } else {
        n is Internal
    }
}

/// The scale of a weight nudge: the bit pattern of 0.05.
pub const MUTATE_WEIGHT_FAC: u64 = 0x3FA9_9999_9999_999A;


/// The lower half of a bisected connection: from the old source to the new
/// center node, with weight 1.0.
pub open spec fn spec_bisect_lower(c: CTRConnection, center: usize, id: usize) -> CTRConnection {
    CTRConnection { inno: id, from: c.from, to: center, weight: R_ONE, enabled: true }
}

/// The upper half of a bisected connection: from the new center node to the
/// old target, keeping the old weight.
pub open spec fn spec_bisect_upper(c: CTRConnection, center: usize, id: usize) -> CTRConnection {
    CTRConnection { inno: id, from: center, to: c.to, weight: c.weight, enabled: true }
}


/// The bias a node contributes: its fixed value for a bias node, else 0.0.
pub open spec fn theta_of(n: CTRNode) -> u64 {
    match n {
        CTRNode::Bias(b) => b,
        _ => R_ZERO,
    }
}

/// The weight the dense matrix holds for the path (f, t): the weight of the
/// last enabled connection joining f to t, and 0.0 where none does.
pub open spec fn spec_net_weight(s: Seq<CTRConnection>, f: usize, t: usize) -> u64
    decreases s.len(),
{
    if s.len() == 0 {
        R_ZERO
    } else if s.last().enabled && s.last().from == f && s.last().to == t {
        s.last().weight
    } else {
        spec_net_weight(s.drop_last(), f, t)
    }
}

/// Row-major grid indices collide only for equal coordinate pairs.
proof fn lemma_grid_index_injective(f1: int, t1: int, f2: int, t2: int, n: int)
    requires
        0 <= f1 && 0 <= t1 < n,
        0 <= f2 && 0 <= t2 < n,
        f1 * n + t1 == f2 * n + t2,
    ensures
        f1 == f2 && t1 == t2,
{
    assert(f1 == f2 && t1 == t2) by (nonlinear_arith)
        requires
            0 <= f1 && 0 <= t1 < n,
            0 <= f2 && 0 <= t2 < n,
            f1 * n + t1 == f2 * n + t2,
    ;
}

/// A row-major grid index stays below the grid's size.
proof fn lemma_grid_index_bound(f: int, t: int, n: int)
    requires
        0 <= f < n,
        0 <= t < n,
    ensures
        0 <= f * n + t < n * n,
{
    assert(0 <= f * n + t < n * n) by (nonlinear_arith)
        requires
            0 <= f < n,
            0 <= t < n,
    ;
}


/// Two genomes that hold the same counts, nodes and connections.
pub open spec fn genome_eq(a: CTRGenome, b: CTRGenome) -> bool {
    a.sensory == b.sensory && a.action == b.action && a.nodes@ == b.nodes@ && a.connections@
        == b.connections@
}


/// Insert a connection with a fresh innovation id at its place in a list
/// sorted by innovation id.
fn insert_connection_sorted(v: &mut Vec<CTRConnection>, c: CTRConnection)
    requires
        sorted_by_inno(old(v)@),
        !has_inno(old(v)@, c.inno),
    ensures
        final(v)@.len() == old(v)@.len() + 1,
        sorted_by_inno(final(v)@),
        exists|i: int| 0 <= i <= old(v)@.len() && final(v)@ == old(v)@.insert(i, c),
        forall|x: usize|
            #[trigger] has_inno(final(v)@, x) <==> (has_inno(old(v)@, x) || x == c.inno),
        forall|k: int|
            0 <= k < final(v)@.len() ==> (final(v)@[k] == c || old(v)@.contains(
                #[trigger] final(v)@[k],
            )),
{
    let mut i: usize = 0;
    while i < v.len() && v[i].inno < c.inno
        invariant
            i <= v@.len(),
            v@ == old(v)@,
            forall|j: int| 0 <= j < i ==> (#[trigger] v@[j]).inno < c.inno,
        decreases v@.len() - i,
    {
        i += 1;
    }
    proof {
        assert forall|j: int| i <= j < v@.len() implies c.inno < (#[trigger] v@[j]).inno by {
            if j > i {
                assert(v@[i as int].inno < v@[j].inno);
            }
            assert(v@[j].inno != c.inno) by {
                if v@[j].inno == c.inno {
                    assert(has_inno(v@, c.inno));
                }
            }
        }
    }
    let ghost pre = v@;
    v.insert(i, c);
    proof {
        let now = v@;
        assert(now == pre.insert(i as int, c));
        assert forall|k: int| 0 <= k < now.len() implies (now[k] == c || pre.contains(
            #[trigger] now[k],
        )) by {
            if k < i {
                assert(now[k] == pre[k]);
            } else if k > i {
                assert(now[k] == pre[k - 1]);
            }
        }
        assert forall|a: int, b: int| 0 <= a < b < now.len() implies now[a].inno
            < now[b].inno by {
            let xa = if a < i {
                pre[a]
            } else if a == i {
                c
            } else {
                pre[a - 1]
            };
            let xb = if b < i {
                pre[b]
            } else if b == i {
                c
            } else {
                pre[b - 1]
            };
            assert(now[a] == xa && now[b] == xb);
        }
        assert forall|x: usize| #[trigger]
            has_inno(now, x) <==> (has_inno(pre, x) || x == c.inno) by {
            if has_inno(now, x) {
                let k = choose|k: int| 0 <= k < now.len() && now[k].inno == x;
                if k < i {
                    assert(pre[k].inno == x);
                } else if k > i {
                    assert(pre[k - 1].inno == x);
                }
            }
            if has_inno(pre, x) {
                let k = choose|k: int| 0 <= k < pre.len() && pre[k].inno == x;
                if k < i {
                    assert(now[k].inno == x);
                } else {
                    assert(now[k + 1].inno == x);
                }
            }
            if x == c.inno {
                assert(now[i as int].inno == x);
            }
        }
    }
}

/// What adding one connection along the open pair (f, t) does: the pair was
/// open among the first `n` nodes, the registry's id for it was not yet
/// held, the new gene sits somewhere in the grown sequence, and the
/// registry stepped on exactly that pair's key.
pub open spec fn spec_conn_added(
    before: Seq<CTRConnection>,
    n: usize,
    seen: Map<u128, usize>,
    head: usize,
    after: Seq<CTRConnection>,
    seen_a: Map<u128, usize>,
    head_a: usize,
    f: usize,
    t: usize,
) -> bool {
    let id = inno_result(seen, head, pack_path((f, t)));
    &&& f < n
    &&& t < n
    &&& !has_path(before, f, t)
    &&& !has_inno(before, id)
    &&& (exists|i: int|
        0 <= i <= before.len() && after == before.insert(
            i,
            CTRConnection { inno: id, from: f, to: t, weight: R_ONE, enabled: true },
        ))
    &&& seen_a == inno_seen_after(seen, head, pack_path((f, t)))
    &&& head_a == inno_head_after(seen, head, pack_path((f, t)))
}

/// After a fresh registry added one connection along an open pair, every
/// bisection of the grown sequence still receives two fresh, distinct ids.
pub proof fn lemma_conn_added_bisection_ok(
    before: Seq<CTRConnection>,
    n: usize,
    seen: Map<u128, usize>,
    head: usize,
    after: Seq<CTRConnection>,
    seen_a: Map<u128, usize>,
    head_a: usize,
    f: usize,
    t: usize,
)
    requires
        crate::specie::seen_ok(seen, head),
        head + 1 < usize::MAX,
        registry_fresh(seen, head, before),
        spec_conn_added(before, n, seen, head, after, seen_a, head_a, f, t),
        forall|i: int| 0 <= i < before.len() ==> (#[trigger] before[i]).from < n && before[i].to < n,
    ensures
        bisection_ids_ok(seen_a, head_a, after, n),
{
    let id = inno_result(seen, head, pack_path((f, t)));
    let newc = CTRConnection { inno: id, from: f, to: t, weight: R_ONE, enabled: true };
    let i = choose|i: int| 0 <= i <= before.len() && after == before.insert(i, newc);
    assert forall|j: int|
        0 <= j < after.len() implies ((#[trigger] after[j]).inno == id && after[j].from == f
        && after[j].to == t) || before.contains(after[j]) by {
        if j < i {
            assert(after[j] == before[j]);
        } else if j == i {
            assert(after[j] == newc);
        } else {
            assert(after[j] == before[j - 1]);
        }
    }
    lemma_bisection_ok_after_connection(seen, head, before, after, f, t, n);
}

/// What bisecting the connection at `pick` does: that connection is
/// disabled, its two halves join the list at their places in innovation
/// order under two fresh, distinct registry ids, and the registry stepped
/// on exactly the two halves' keys.
pub open spec fn spec_bisected(
    before: Seq<CTRConnection>,
    center: usize,
    seen: Map<u128, usize>,
    head: usize,
    after: Seq<CTRConnection>,
    seen_f: Map<u128, usize>,
    head_f: usize,
    pick: int,
) -> bool {
    let c = before[pick];
    let key1 = pack_path((c.from, center));
    let id1 = inno_result(seen, head, key1);
    let seen1 = inno_seen_after(seen, head, key1);
    let head1 = inno_head_after(seen, head, key1) as usize;
    let key2 = pack_path((center, c.to));
    let id2 = inno_result(seen1, head1, key2);
    let disabled = before.update(pick, crate::crossover::with_enabled(c, false));
    &&& 0 <= pick < before.len()
    &&& id1 != id2
    &&& !has_inno(before, id1)
    &&& !has_inno(before, id2)
    &&& (exists|i1: int, i2: int|
        0 <= i1 <= disabled.len() && 0 <= i2 <= disabled.len() + 1 && after == disabled.insert(
            i1,
            spec_bisect_lower(c, center, id1),
        ).insert(i2, spec_bisect_upper(c, center, id2)))
    &&& seen_f == inno_seen_after(seen1, head1, key2)
    &&& head_f == inno_head_after(seen1, head1, key2)
}

/// Every connection of the sequence joins node indices below `n`.
pub open spec fn conns_below(s: Seq<CTRConnection>, n: int) -> bool {
    forall|i: int| 0 <= i < s.len() ==> (#[trigger] s[i]).from < n && s[i].to < n
}

proof fn lemma_bounds_update(s: Seq<CTRConnection>, p: int, c: CTRConnection, n: int)
    requires
        conns_below(s, n),
        0 <= p < s.len(),
        c.from < n,
        c.to < n,
    ensures
        conns_below(s.update(p, c), n),
{
    let t = s.update(p, c);
    assert forall|i: int| 0 <= i < t.len() implies (#[trigger] t[i]).from < n && t[i].to < n by {
        if i != p {
            assert(t[i] == s[i]);
        }
    }
}

proof fn lemma_bounds_insert(s: Seq<CTRConnection>, p: int, c: CTRConnection, n: int)
    requires
        conns_below(s, n),
        0 <= p <= s.len(),
        c.from < n,
        c.to < n,
    ensures
        conns_below(s.insert(p, c), n),
{
    let t = s.insert(p, c);
    assert forall|i: int| 0 <= i < t.len() implies (#[trigger] t[i]).from < n && t[i].to < n by {
        if i < p {
            assert(t[i] == s[i]);
        } else if i > p {
            assert(t[i] == s[i - 1]);
        }
    }
}

/// Whether the sequence holds the gene: a connection with the same id and
/// endpoints, enabled unless the held copy was disabled.
pub open spec fn gene_present(after: Seq<CTRConnection>, g: CTRConnection) -> bool {
    exists|j: int|
        0 <= j < after.len() && (#[trigger] after[j]).inno == g.inno && after[j].from == g.from
            && after[j].to == g.to && (after[j].enabled == g.enabled || !after[j].enabled)
}

/// Every gene of `before` is present in `after`: mutation may change a
/// gene's weight and may disable it, but never drops or rewires one.
pub open spec fn genes_preserved(before: Seq<CTRConnection>, after: Seq<CTRConnection>) -> bool {
    forall|i: int| 0 <= i < before.len() ==> gene_present(after, #[trigger] before[i])
}

proof fn lemma_genes_preserved_refl(s: Seq<CTRConnection>)
    ensures
        genes_preserved(s, s),
{
    assert forall|i: int| 0 <= i < s.len() implies gene_present(s, #[trigger] s[i]) by {
        assert(0 <= i < s.len() && s[i].inno == s[i].inno);
    }
}

proof fn lemma_genes_preserved_weights(before: Seq<CTRConnection>, after: Seq<CTRConnection>)
    requires
        before.len() == after.len(),
        forall|i: int| 0 <= i < before.len() ==> same_but_weight(#[trigger] after[i], before[i]),
    ensures
        genes_preserved(before, after),
{
    assert forall|i: int| 0 <= i < before.len() implies gene_present(
        after,
        #[trigger] before[i],
    ) by {
        assert(same_but_weight(after[i], before[i]));
    }
}

proof fn lemma_genes_preserved_insert(s: Seq<CTRConnection>, i: int, c: CTRConnection)
    requires
        0 <= i <= s.len(),
    ensures
        genes_preserved(s, s.insert(i, c)),
{
    let t = s.insert(i, c);
    assert forall|k: int| 0 <= k < s.len() implies gene_present(t, #[trigger] s[k]) by {
        if k < i {
            assert(t[k] == s[k]);
        } else {
            assert(t[k + 1] == s[k]);
        }
    }
}

proof fn lemma_genes_preserved_disable(s: Seq<CTRConnection>, p: int)
    requires
        0 <= p < s.len(),
    ensures
        genes_preserved(s, s.update(p, crate::crossover::with_enabled(s[p], false))),
{
    let t = s.update(p, crate::crossover::with_enabled(s[p], false));
    assert forall|k: int| 0 <= k < s.len() implies gene_present(t, #[trigger] s[k]) by {
        if k == p {
            assert(t[k].inno == s[k].inno && t[k].from == s[k].from && t[k].to == s[k].to
                && !t[k].enabled);
        } else {
            assert(t[k] == s[k]);
        }
    }
}

proof fn lemma_genes_preserved_trans(
    a: Seq<CTRConnection>,
    b: Seq<CTRConnection>,
    c: Seq<CTRConnection>,
)
    requires
        genes_preserved(a, b),
        genes_preserved(b, c),
    ensures
        genes_preserved(a, c),
{
    assert forall|i: int| 0 <= i < a.len() implies gene_present(c, #[trigger] a[i]) by {
        assert(gene_present(b, a[i]));
        let j = choose|j: int|
            0 <= j < b.len() && b[j].inno == a[i].inno && b[j].from == a[i].from && b[j].to
                == a[i].to && (b[j].enabled == a[i].enabled || !b[j].enabled);
        assert(gene_present(c, b[j]));
        let k = choose|k: int|
            0 <= k < c.len() && c[k].inno == b[j].inno && c[k].from == b[j].from && c[k].to
                == b[j].to && (c[k].enabled == b[j].enabled || !c[k].enabled);
        assert(0 <= k < c.len() && c[k].inno == a[i].inno && c[k].from == a[i].from && c[k].to
            == a[i].to && (c[k].enabled == a[i].enabled || !c[k].enabled));
    }
}

/// A genome: input and output counts, a node list, and a connection list
/// sorted by innovation id.
#[derive(Debug)]
pub struct CTRGenome {
    pub sensory: usize,
    pub action: usize,
    pub nodes: Vec<CTRNode>,
    pub connections: Vec<CTRConnection>,
}

impl CTRGenome {
    /// The structural invariant: the node list lays out sensory, action,
    /// bias and internal nodes in order; every connection joins valid node
    /// indices; connections are sorted strictly by innovation id.
    pub open spec fn wf(self) -> bool {
        &&& self.sensory + self.action < self.nodes@.len()
        &&& forall|i: int|
            0 <= i < self.nodes@.len() ==> node_ok(self.sensory, self.action, i, self.nodes@[i])
        &&& forall|k: int|
            0 <= k < self.connections@.len() ==> (#[trigger] self.connections@[k]).from
                < self.nodes@.len() && self.connections@[k].to < self.nodes@.len()
        &&& sorted_by_inno(self.connections@)
    }

    /// A new genome wired for the given input and output sizes: its nodes
    /// are the sensory and action nodes plus one bias node of value 1.0, and
    /// it has no connections yet. Also returns the number of innovation ids
    /// such a generation may claim up front: one per (sensory or bias,
    /// action) pair.
    pub fn new(sensory: usize, action: usize) -> (r: (Self, usize))
        requires
            sensory + action + 1 <= usize::MAX,
            (sensory + 1) * action <= usize::MAX,
        ensures
            r.0.wf(),
            r.0.sensory == sensory,
            r.0.action == action,
            r.0.nodes@.len() == sensory + action + 1,
            r.0.nodes@[sensory + action] == CTRNode::Bias(R_ONE),
            r.0.connections@.len() == 0,
            r.1 == (sensory + 1) * action,
    {
        let mut nodes: Vec<CTRNode> = Vec::new();
        let mut i: usize = 0;
        while i < sensory
            invariant
                i <= sensory,
                nodes@.len() == i,
                forall|j: int| 0 <= j < i ==> nodes@[j] is Sensory,
            decreases sensory - i,
        {
            nodes.push(CTRNode::Sensory);
            i += 1;
        }
        let mut j: usize = 0;
        while j < action
            invariant
                j <= action,
                nodes@.len() == sensory + j,
                forall|k: int| 0 <= k < sensory ==> nodes@[k] is Sensory,
                forall|k: int| sensory <= k < sensory + j ==> nodes@[k] is Action,
            decreases action - j,
        {
            nodes.push(CTRNode::Action);
            j += 1;
        }
        nodes.push(CTRNode::Bias(R_ONE));
        let genome = CTRGenome { sensory, action, nodes, connections: Vec::new() };
        (genome, (sensory + 1) * action)
    }


    /// Mutate the connection weights: each weight is replaced by a fresh
    /// standard-normal sample one time in ten, and otherwise nudged by a
    /// 0.05-scaled sample. Everything but the weights stays as it was.
    pub fn mutate_params(&mut self, rng: &mut ProbBinding)
        requires
            old(rng).wf(),
        ensures
            final(rng).wf(),
            final(rng).probs == old(rng).probs,
            final(self).sensory == old(self).sensory,
            final(self).action == old(self).action,
            final(self).nodes@ == old(self).nodes@,
            final(self).connections@.len() == old(self).connections@.len(),
            forall|i: int|
                0 <= i < old(self).connections@.len() ==> same_but_weight(
                    #[trigger] final(self).connections@[i],
                    old(self).connections@[i],
                ),
            old(self).wf() ==> final(self).wf(),
    {
        let ghost probs0 = rng.probs;
        let ghost conns0 = self.connections@;
        let mut i: usize = 0;
        while i < self.connections.len()
            invariant
                rng.wf(),
                rng.probs == probs0,
                self.sensory == old(self).sensory,
                self.action == old(self).action,
                self.nodes@ == old(self).nodes@,
                self.connections@.len() == conns0.len(),
                i <= conns0.len(),
                forall|k: int|
                    0 <= k < conns0.len() ==> same_but_weight(
                        #[trigger] self.connections@[k],
                        conns0[k],
                    ),
            decreases self.connections@.len() - i,
        {
            let mut conn = self.connections[i];
            if rng.ratio(1, 10) {
                conn.weight = rng.standard_normal();
            } else {
                conn.weight = r_add(conn.weight, r_mul(MUTATE_WEIGHT_FAC, rng.standard_normal()));
            }
            self.connections.set(i, conn);
            i += 1;
        }
        proof {
            if old(self).wf() {
                assert forall|a: int, b: int|
                    0 <= a < b < self.connections@.len() implies self.connections@[a].inno
                    < self.connections@[b].inno by {
                    assert(same_but_weight(self.connections@[a], conns0[a]));
                    assert(same_but_weight(self.connections@[b], conns0[b]));
                }
                assert forall|k: int| 0 <= k < self.connections@.len() implies (
                #[trigger] self.connections@[k]).from < self.nodes@.len()
                    && self.connections@[k].to < self.nodes@.len() by {
                    assert(same_but_weight(self.connections@[k], conns0[k]));
                }
            }
        }
    }

    /// Find some open (from, to) path that no connection occupies, if one
    /// exists: draw a source among nodes not yet known saturated, draw a
    /// target among the nodes it does not reach yet, and mark the source
    /// saturated when it reaches everything. Self-loops are valid paths.
    /// `None` is returned exactly when every pair is taken.
    pub fn gen_connection_path(&self, rng: &mut ProbBinding) -> (r: Option<(usize, usize)>)
        requires
            old(rng).wf(),
        ensures
            final(rng).wf(),
            final(rng).probs == old(rng).probs,
            r matches Some(p) ==> p.0 < self.nodes@.len() && p.1 < self.nodes@.len() && !has_path(
                self.connections@,
                p.0,
                p.1,
            ),
            r is None ==> forall|f: usize, t: usize|
                f < self.nodes@.len() && t < self.nodes@.len() ==> has_path(
                    self.connections@,
                    f,
                    t,
                ),
    {
        let ghost probs0 = rng.probs;
        let n = self.nodes.len();
        let mut saturated: Vec<bool> = Vec::new();
        let mut k: usize = 0;
        while k < n
            invariant
                k <= n,
                saturated@.len() == k,
                count_false(saturated@) == k,
                forall|i: int| 0 <= i < k ==> !saturated@[i],
            decreases n - k,
        {
            proof {
                lemma_count_false_push(saturated@, false);
            }
            saturated.push(false);
            k += 1;
        }
        loop
            invariant
                rng.wf(),
                rng.probs == old(rng).probs,
                n == self.nodes@.len(),
                saturated@.len() == n,
                forall|f: usize, t: usize|
                    f < n && t < n && saturated@[f as int] ==> #[trigger] has_path(
                        self.connections@,
                        f,
                        t,
                    ),
            decreases count_false(saturated@),
        {
            let mut cand: Vec<usize> = Vec::new();
            let mut i: usize = 0;
            while i < n
                invariant
                    i <= n == saturated@.len(),
                    forall|j: int|
                        0 <= j < cand@.len() ==> (#[trigger] cand@[j]) < i && !saturated@[cand@[j]
                            as int],
                    cand@.len() == count_false(saturated@.take(i as int)),
                decreases n - i,
            {
                proof {
                    assert(saturated@.take(i + 1) =~= saturated@.take(i as int).push(
                        saturated@[i as int],
                    ));
                    lemma_count_false_push(saturated@.take(i as int), saturated@[i as int]);
                }
                if !saturated[i] {
                    cand.push(i);
                }
                i += 1;
            }
            if cand.len() == 0 {
                proof {
                    assert(saturated@.take(n as int) =~= saturated@);
                    lemma_count_false_zero(saturated@);
                    assert forall|f: usize, t: usize|
                        f < self.nodes@.len() && t < self.nodes@.len() implies has_path(
                        self.connections@,
                        f,
                        t,
                    ) by {
                        assert(saturated@[f as int]);
                    }
                }
                return None;
            }
            let from = cand[rng.below(cand.len())];
            let mut taken: Vec<bool> = Vec::new();
            let mut t0: usize = 0;
            while t0 < n
                invariant
                    t0 <= n,
                    taken@.len() == t0,
                    forall|t: int| 0 <= t < t0 ==> !taken@[t],
                decreases n - t0,
            {
                taken.push(false);
                t0 += 1;
            }
            let mut c: usize = 0;
            while c < self.connections.len()
                invariant
                    c <= self.connections@.len(),
                    n == self.nodes@.len(),
                    from < n,
                    taken@.len() == n,
                    forall|t: int|
                        0 <= t < n ==> (taken@[t] <==> has_path(
                            self.connections@.take(c as int),
                            from,
                            t as usize,
                        )),
                decreases self.connections@.len() - c,
            {
                let ghost taken_pre = taken@;
                let conn = self.connections[c];
                if conn.from == from && conn.to < n {
                    taken.set(conn.to, true);
                }
                proof {
                    assert(self.connections@.take(c + 1) =~= self.connections@.take(
                        c as int,
                    ).push(self.connections@[c as int]));
                    assert forall|t: int|
                        0 <= t < n implies (taken@[t] <==> has_path(
                        self.connections@.take(c + 1),
                        from,
                        t as usize,
                    )) by {
                        let s1 = self.connections@.take(c + 1);
                        let s0 = self.connections@.take(c as int);
                        if taken@[t] {
                            if taken_pre[t] {
                                let w = choose|w: int|
                                    0 <= w < s0.len() && s0[w].from == from && s0[w].to == (
                                    t as usize);
                                assert(s1[w].from == from && s1[w].to == (t as usize));
                            } else {
                                assert(s1[s1.len() - 1].from == from && s1[s1.len() - 1].to == (
                                t as usize));
                            }
                        } else {
                            if has_path(s1, from, t as usize) {
                                let w = choose|w: int|
                                    0 <= w < s1.len() && s1[w].from == from && s1[w].to == (
                                    t as usize);
                                if w < s0.len() {
                                    assert(s0[w].from == from && s0[w].to == (t as usize));
                                    assert(taken_pre[t]);
                                }
                            }
                        }
                    }
                }
                c += 1;
            }
            proof {
                assert(self.connections@.take(self.connections@.len() as int)
                    =~= self.connections@);
            }
            let mut open_t: Vec<usize> = Vec::new();
            let mut t1: usize = 0;
            while t1 < n
                invariant
                    t1 <= n == self.nodes@.len(),
                    from < n,
                    taken@.len() == n,
                    forall|t: int|
                        0 <= t < n ==> (taken@[t] <==> has_path(self.connections@, from, t as usize)),
                    forall|j: int|
                        0 <= j < open_t@.len() ==> (#[trigger] open_t@[j]) < n && !has_path(
                            self.connections@,
                            from,
                            open_t@[j],
                        ),
                    open_t@.len() == count_false(taken@.take(t1 as int)),
                decreases n - t1,
            {
                proof {
                    assert(taken@.take(t1 + 1) =~= taken@.take(t1 as int).push(
                        taken@[t1 as int],
                    ));
                    lemma_count_false_push(taken@.take(t1 as int), taken@[t1 as int]);
                }
                if !taken[t1] {
                    open_t.push(t1);
                }
                t1 += 1;
            }
            if open_t.len() > 0 {
                let to = open_t[rng.below(open_t.len())];
                return Some((from, to));
            }
            let ghost sat_pre = saturated@;
            saturated.set(from, true);
            proof {
                assert(taken@.take(n as int) =~= taken@);
                lemma_count_false_zero(taken@);
                lemma_count_false_update(sat_pre, from as int);
                lemma_count_false_nonneg(saturated@);
                assert forall|f: usize, t: usize|
                    f < n && t < n && saturated@[f as int] implies #[trigger] has_path(
                    self.connections@,
                    f,
                    t,
                ) by {
                    if f != from {
                        assert(sat_pre[f as int]);
                    } else {
                        assert(taken@[t as int]);
                    }
                }
            }
        }
    }


    /// Connect one open (from, to) pair: draw an open path, give the new
    /// connection the registry's id for that path, weight 1.0, enabled,
    /// placed at its position in innovation order. Fails with `Saturated`
    /// exactly when every pair is taken, and with `StaleRegistry` when the
    /// registry hands back an id the genome already holds; in both cases
    /// the genome is unchanged.
    pub fn mutate_connection(&mut self, rng: &mut ProbBinding, inno: &mut InnoGen) -> (r: Result<
        (),
        EvolutionError,
    >)
        requires
            old(self).wf(),
            old(rng).wf(),
            old(inno).wf(),
            old(inno).head < usize::MAX,
        ensures
            final(rng).wf(),
            final(rng).probs == old(rng).probs,
            final(inno).wf(),
            old(inno).head <= final(inno).head <= old(inno).head + 1,
            final(self).sensory == old(self).sensory,
            final(self).action == old(self).action,
            final(self).nodes@ == old(self).nodes@,
            final(self).wf(),
            r == Err::<(), EvolutionError>(EvolutionError::Saturated) <==> (forall|
                f: usize,
                t: usize,
            |
                f < old(self).nodes@.len() && t < old(self).nodes@.len() ==> has_path(
                    old(self).connections@,
                    f,
                    t,
                )),
            r is Err ==> final(self).connections@ == old(self).connections@ && (r == Err::<
                (),
                EvolutionError,
            >(EvolutionError::Saturated) || r == Err::<(), EvolutionError>(
                EvolutionError::StaleRegistry,
            )),
            r == Err::<(), EvolutionError>(EvolutionError::StaleRegistry) ==> old(
                self,
            ).connections@.len() > 0,
            registry_extends(old(inno).seen@, old(inno).head, final(inno).seen@, final(inno).head),
            genes_preserved(old(self).connections@, final(self).connections@),
            r == Err::<(), EvolutionError>(EvolutionError::Saturated) ==> final(inno).seen@ == old(
                inno,
            ).seen@ && final(inno).head == old(inno).head,
            r == Err::<(), EvolutionError>(EvolutionError::StaleRegistry) ==> exists|
                f: usize,
                t: usize,
            |
                f < old(self).nodes@.len() && t < old(self).nodes@.len() && !(#[trigger] has_path(
                    old(self).connections@,
                    f,
                    t,
                )) && has_inno(
                    old(self).connections@,
                    inno_result(old(inno).seen@, old(inno).head, pack_path((f, t))),
                ),
            registry_fresh(old(inno).seen@, old(inno).head, old(self).connections@) ==> !(r
                == Err::<(), EvolutionError>(EvolutionError::StaleRegistry)),
            r is Ok ==> final(self).connections@.len() == old(self).connections@.len() + 1,
            r is Ok ==> exists|f: usize, t: usize|
                #[trigger] spec_conn_added(
                    old(self).connections@,
                    old(self).nodes@.len() as usize,
                    old(inno).seen@,
                    old(inno).head,
                    final(self).connections@,
                    final(inno).seen@,
                    final(inno).head,
                    f,
                    t,
                ),
    {
        let n_nodes = self.nodes.len();
        proof {
            lemma_genes_preserved_refl(self.connections@);
            assert(old(self).nodes@.len() == n_nodes);
        }
        match self.gen_connection_path(rng) {
            None => Err(EvolutionError::Saturated),
            Some((f, t)) => {
                let id = inno.path((f, t));
                proof {
                    crate::specie::lemma_step_properties(
                        old(inno).seen@,
                        old(inno).head,
                        pack_path((f, t)),
                    );
                }
                let mut collide = false;
                let mut k: usize = 0;
                let len = self.connections.len();
                while k < len
                    invariant
                        k <= len == self.connections@.len(),
                        collide ==> has_inno(self.connections@, id),
                        !collide ==> forall|j: int|
                            0 <= j < k ==> (#[trigger] self.connections@[j]).inno != id,
                    decreases len - k,
                {
                    if self.connections[k].inno == id {
                        proof {
                            assert(self.connections@[k as int].inno == id);
                        }
                        collide = true;
                    }
                    k += 1;
                }
                if collide {
                    proof {
                        if registry_fresh(
                            old(inno).seen@,
                            old(inno).head,
                            old(self).connections@,
                        ) {
                            lemma_fresh_result_not_held(
                                old(inno).seen@,
                                old(inno).head,
                                pack_path((f, t)),
                                old(self).connections@,
                            );
                        }
                    }
                    return Err(EvolutionError::StaleRegistry);
                }
                proof {
                    assert(!has_inno(self.connections@, id)) by {
                        if has_inno(self.connections@, id) {
                            let j = choose|j: int|
                                0 <= j < self.connections@.len() && self.connections@[j].inno
                                    == id;
                            assert(self.connections@[j].inno != id);
                        }
                    }
                }
                let conn = CTRConnection { inno: id, from: f, to: t, weight: R_ONE, enabled: true };
                insert_connection_sorted(&mut self.connections, conn);
                proof {
                    let iw = choose|iw: int|
                        0 <= iw <= old(self).connections@.len() && self.connections@ == old(
                            self,
                        ).connections@.insert(iw, conn);
                    lemma_genes_preserved_insert(old(self).connections@, iw, conn);
                    assert(spec_conn_added(
                        old(self).connections@,
                        old(self).nodes@.len() as usize,
                        old(inno).seen@,
                        old(inno).head,
                        self.connections@,
                        inno.seen@,
                        inno.head,
                        f,
                        t,
                    ));
                    assert(conns_below(old(self).connections@, self.nodes@.len() as int));
                    lemma_bounds_insert(
                        old(self).connections@,
                        iw,
                        conn,
                        self.nodes@.len() as int,
                    );
                }
                Ok(())
            },
        }
    }

    /// Bisect one connection: disable a uniformly drawn connection, append
    /// a new internal center node, and add the two halves at their places
    /// in innovation order, the lower with weight 1.0 and the upper with
    /// the old weight, under the registry's ids for their paths. Fails with
    /// `NoConnections` exactly when there is nothing to bisect, and with
    /// `StaleRegistry` when the registry hands back an id the genome
    /// already holds; in both cases the genome is unchanged.
    #[verifier::rlimit(100)]
    #[verifier::spinoff_prover]
    pub fn mutate_bisection(&mut self, rng: &mut ProbBinding, inno: &mut InnoGen) -> (r: Result<
        (),
        EvolutionError,
    >)
        requires
            old(self).wf(),
            old(rng).wf(),
            old(inno).wf(),
            old(inno).head + 1 < usize::MAX,
        ensures
            final(rng).wf(),
            final(rng).probs == old(rng).probs,
            final(inno).wf(),
            old(inno).head <= final(inno).head <= old(inno).head + 2,
            final(self).sensory == old(self).sensory,
            final(self).action == old(self).action,
            final(self).wf(),
            r == Err::<(), EvolutionError>(EvolutionError::NoConnections) <==> old(
                self,
            ).connections@.len() == 0,
            r is Err ==> final(self).nodes@ == old(self).nodes@ && final(self).connections@ == old(
                self,
            ).connections@ && (r == Err::<(), EvolutionError>(EvolutionError::NoConnections) || r
                == Err::<(), EvolutionError>(EvolutionError::StaleRegistry)),
            registry_extends(old(inno).seen@, old(inno).head, final(inno).seen@, final(inno).head),
            genes_preserved(old(self).connections@, final(self).connections@),
            r is Ok ==> final(self).connections@.len() == old(self).connections@.len() + 2
                && final(self).nodes@.len() == old(self).nodes@.len() + 1,
            old(self).connections@.len() > 0 && bisection_ids_ok(
                old(inno).seen@,
                old(inno).head,
                old(self).connections@,
                old(self).nodes@.len() as usize,
            ) ==> r is Ok,
            r is Ok ==> final(self).nodes@ == old(self).nodes@.push(CTRNode::Internal),
            r is Ok ==> exists|pick: int|
                #[trigger] spec_bisected(
                    old(self).connections@,
                    old(self).nodes@.len() as usize,
                    old(inno).seen@,
                    old(inno).head,
                    final(self).connections@,
                    final(inno).seen@,
                    final(inno).head,
                    pick,
                ),
    {
        proof {
            lemma_genes_preserved_refl(self.connections@);
        }
        let len = self.connections.len();
        if len == 0 {
            return Err(EvolutionError::NoConnections);
        }
        let pick = rng.below(len);
        let center = self.nodes.len();
        let c = self.connections[pick];
        let id1 = inno.path((c.from, center));
        let id2 = inno.path((center, c.to));
        let ghost key1 = pack_path((c.from, center));
        let ghost seen1 = inno_seen_after(old(inno).seen@, old(inno).head, key1);
        let ghost head1 = inno_head_after(old(inno).seen@, old(inno).head, key1) as usize;
        let ghost key2 = pack_path((center, c.to));
        proof {
            assert(c == old(self).connections@[pick as int]);
            assert(id1 == inno_result(old(inno).seen@, old(inno).head, key1));
            assert(id2 == inno_result(seen1, head1, key2));
            crate::specie::lemma_step_properties(old(inno).seen@, old(inno).head, key1);
            crate::specie::lemma_step_properties(seen1, head1, key2);
            lemma_extends_trans(
                old(inno).seen@,
                old(inno).head,
                seen1,
                head1,
                inno.seen@,
                inno.head,
            );
        }
        if id1 == id2 {
            proof {
                if bisection_ids_ok(
                    old(inno).seen@,
                    old(inno).head,
                    old(self).connections@,
                    old(self).nodes@.len() as usize,
                ) {
                    lemma_bisection_ids_ok_at(
                        old(inno).seen@,
                        old(inno).head,
                        old(self).connections@,
                        old(self).nodes@.len() as usize,
                        pick as int,
                    );
                    assert(false);
                }
            }
            return Err(EvolutionError::StaleRegistry);
        }
        let mut collide = false;
        let mut k: usize = 0;
        while k < len
            invariant
                k <= len == self.connections@.len(),
                collide ==> has_inno(self.connections@, id1) || has_inno(self.connections@, id2),
                !collide ==> forall|j: int|
                    0 <= j < k ==> (#[trigger] self.connections@[j]).inno != id1
                        && self.connections@[j].inno != id2,
            decreases len - k,
        {
            if self.connections[k].inno == id1 || self.connections[k].inno == id2 {
                proof {
                    assert(self.connections@[k as int].inno == id1 || self.connections@[
                        k as int].inno == id2);
                }
                collide = true;
            }
            k += 1;
        }
        if collide {
            proof {
                if bisection_ids_ok(
                    old(inno).seen@,
                    old(inno).head,
                    old(self).connections@,
                    old(self).nodes@.len() as usize,
                ) {
                    lemma_bisection_ids_ok_at(
                        old(inno).seen@,
                        old(inno).head,
                        old(self).connections@,
                        old(self).nodes@.len() as usize,
                        pick as int,
                    );
                    assert(false);
                }
            }
            return Err(EvolutionError::StaleRegistry);
        }
        proof {
            assert(!has_inno(self.connections@, id1) && !has_inno(self.connections@, id2)) by {
                if has_inno(self.connections@, id1) {
                    let j = choose|j: int|
                        0 <= j < self.connections@.len() && self.connections@[j].inno == id1;
                    assert(self.connections@[j].inno != id1);
                }
                if has_inno(self.connections@, id2) {
                    let j = choose|j: int|
                        0 <= j < self.connections@.len() && self.connections@[j].inno == id2;
                    assert(self.connections@[j].inno != id2);
                }
            }
        }
        let mut disabled = c;
        disabled.enabled = false;
        self.connections.set(pick, disabled);
        self.nodes.push(CTRNode::Internal);
        let lower = CTRConnection { inno: id1, from: c.from, to: center, weight: R_ONE, enabled: true };
        let upper = CTRConnection { inno: id2, from: center, to: c.to, weight: c.weight, enabled: true };
        let ghost after_disable = self.connections@;
        proof {
            assert(after_disable == old(self).connections@.update(
                pick as int,
                crate::crossover::with_enabled(c, false),
            ));
            assert forall|a: int, b: int|
                0 <= a < b < after_disable.len() implies after_disable[a].inno
                < after_disable[b].inno by {
                assert(old(self).connections@[a].inno < old(self).connections@[b].inno);
            }
            assert(!has_inno(after_disable, id1) && !has_inno(after_disable, id2)) by {
                if has_inno(after_disable, id1) {
                    let j = choose|j: int|
                        0 <= j < after_disable.len() && after_disable[j].inno == id1;
                    assert(old(self).connections@[j].inno == id1);
                    assert(has_inno(old(self).connections@, id1));
                }
                if has_inno(after_disable, id2) {
                    let j = choose|j: int|
                        0 <= j < after_disable.len() && after_disable[j].inno == id2;
                    assert(old(self).connections@[j].inno == id2);
                    assert(has_inno(old(self).connections@, id2));
                }
            }
        }
        insert_connection_sorted(&mut self.connections, lower);
        let ghost after_lower = self.connections@;
        proof {
            assert(!has_inno(after_lower, id2));
        }
        insert_connection_sorted(&mut self.connections, upper);
        proof {
            let n_new = self.nodes@.len() as int;
            assert(n_new == old(self).nodes@.len() + 1);
            assert(conns_below(old(self).connections@, n_new));
            lemma_bounds_update(
                old(self).connections@,
                pick as int,
                crate::crossover::with_enabled(c, false),
                n_new,
            );
            let i1w = choose|i: int|
                0 <= i <= after_disable.len() && after_lower == after_disable.insert(i, lower);
            let i2w = choose|i: int|
                0 <= i <= after_lower.len() && self.connections@ == after_lower.insert(i, upper);
            lemma_bounds_insert(after_disable, i1w, lower, n_new);
            lemma_bounds_insert(after_lower, i2w, upper, n_new);
            lemma_genes_preserved_disable(old(self).connections@, pick as int);
            lemma_genes_preserved_insert(after_disable, i1w, lower);
            lemma_genes_preserved_insert(after_lower, i2w, upper);
            lemma_genes_preserved_trans(old(self).connections@, after_disable, after_lower);
            lemma_genes_preserved_trans(old(self).connections@, after_lower, self.connections@);
            assert(lower == spec_bisect_lower(c, center, id1));
            assert(upper == spec_bisect_upper(c, center, id2));
            assert(self.connections@ == after_disable.insert(
                i1w,
                spec_bisect_lower(c, center, id1),
            ).insert(i2w, spec_bisect_upper(c, center, id2)));
            assert(0 <= pick < old(self).connections@.len());
            assert(c == old(self).connections@[pick as int]);
            assert(center == old(self).nodes@.len());
            let key1 = pack_path((c.from, center));
            assert(id1 == inno_result(old(inno).seen@, old(inno).head, key1));
            let seen1 = inno_seen_after(old(inno).seen@, old(inno).head, key1);
            let head1 = inno_head_after(old(inno).seen@, old(inno).head, key1) as usize;
            let key2 = pack_path((center, c.to));
            assert(id2 == inno_result(seen1, head1, key2));
            assert(inno.seen@ == inno_seen_after(seen1, head1, key2));
            assert(inno.head == inno_head_after(seen1, head1, key2));
            assert(after_disable == old(self).connections@.update(
                pick as int,
                crate::crossover::with_enabled(c, false),
            ));
            assert(self.nodes@ == old(self).nodes@.push(CTRNode::Internal));
            assert(spec_bisected(
                old(self).connections@,
                center,
                old(inno).seen@,
                old(inno).head,
                self.connections@,
                inno.seen@,
                inno.head,
                pick as int,
            ));
            assert(center == old(self).nodes@.len() as usize);
        }
        Ok(())
    }

    /// Perform zero or more mutations: with their tabled probabilities,
    /// mutate the weights, add a connection, and bisect a connection. A
    /// saturated genome skips the added connection; a stale registry is the
    /// one reported failure.
    #[verifier::rlimit(100)]
    #[verifier::spinoff_prover]
    pub fn mutate(&mut self, rng: &mut ProbBinding, inno: &mut InnoGen) -> (r: Result<
        (),
        EvolutionError,
    >)
        requires
            old(self).wf(),
            old(rng).wf(),
            old(inno).wf(),
            old(inno).head + 2 < usize::MAX,
        ensures
            final(rng).wf(),
            final(rng).probs == old(rng).probs,
            final(inno).wf(),
            old(inno).head <= final(inno).head <= old(inno).head + 3,
            final(self).wf(),
            final(self).sensory == old(self).sensory,
            final(self).action == old(self).action,
            old(self).connections@.len() <= final(self).connections@.len() <= old(
                self,
            ).connections@.len() + 3,
            old(self).nodes@.len() <= final(self).nodes@.len() <= old(self).nodes@.len() + 1,
            genes_preserved(old(self).connections@, final(self).connections@),
            registry_extends(old(inno).seen@, old(inno).head, final(inno).seen@, final(inno).head),
            registry_fresh(old(inno).seen@, old(inno).head, old(self).connections@) ==> r is Ok,
            r is Err ==> r == Err::<(), EvolutionError>(EvolutionError::StaleRegistry),
    {
        let ghost seen0 = inno.seen@;
        let ghost head0 = inno.head;
        let ghost conns0 = self.connections@;
        let center0 = self.nodes.len();
        if rng.happens(EvolutionEvent::MutateWeight) {
            self.mutate_params(rng);
        }
        let ghost conns1 = self.connections@;
        proof {
            assert forall|j: int|
                0 <= j < conns1.len() implies (#[trigger] conns1[j]).from < center0
                && conns1[j].to < center0 by {
                assert(self.connections@[j].from < self.nodes@.len());
            }
            if conns1 == conns0 {
                lemma_genes_preserved_refl(conns0);
            } else {
                lemma_genes_preserved_weights(conns0, conns1);
            }
            if registry_fresh(seen0, head0, conns0) {
                assert forall|i: int| 0 <= i < conns1.len() implies crate::specie::inno_fresh(
                    seen0,
                    head0,
                    (#[trigger] conns1[i]).inno as int,
                ) by {
                    if conns1 != conns0 {
                        assert(same_but_weight(conns1[i], conns0[i]));
                    }
                    assert(crate::specie::inno_fresh(seen0, head0, conns0[i].inno as int));
                }
            }
        }
        if rng.happens(EvolutionEvent::MutateConnection) {
            match self.mutate_connection(rng, inno) {
                Ok(()) => {
                    proof {
                        lemma_genes_preserved_trans(conns0, conns1, self.connections@);
                        if registry_fresh(seen0, head0, conns0) {
                            let (f, t) = choose|f: usize, t: usize|
                                #[trigger] spec_conn_added(
                                    conns1,
                                    center0,
                                    seen0,
                                    head0,
                                    self.connections@,
                                    inno.seen@,
                                    inno.head,
                                    f,
                                    t,
                                );
                            lemma_conn_added_bisection_ok(
                                conns1,
                                center0,
                                seen0,
                                head0,
                                self.connections@,
                                inno.seen@,
                                inno.head,
                                f,
                                t,
                            );
                        }
                    }
                },
                Err(EvolutionError::Saturated) => {
                    proof {
                        lemma_genes_preserved_trans(conns0, conns1, self.connections@);
                        if registry_fresh(seen0, head0, conns0) {
                            lemma_fresh_bisection_ok(seen0, head0, conns1, center0);
                        }
                    }
                },
                Err(e) => {
                    proof {
                        lemma_genes_preserved_trans(conns0, conns1, self.connections@);
                        if registry_fresh(seen0, head0, conns0) {
                            assert(false);
                        }
                    }
                    return Err(e);
                },
            }
        } else {
            proof {
                if registry_fresh(seen0, head0, conns0) {
                    lemma_fresh_bisection_ok(seen0, head0, conns1, center0);
                }
            }
        }
        let ghost conns2 = self.connections@;
        let ghost seen2 = inno.seen@;
        let ghost head2 = inno.head;
        let roll = rng.happens(EvolutionEvent::MutateBisection);
        if roll && self.connections.len() > 0 {
            match self.mutate_bisection(rng, inno) {
                Ok(()) => {
                    proof {
                        lemma_genes_preserved_trans(conns0, conns2, self.connections@);
                    }
                },
                Err(e) => {
                    proof {
                        if registry_fresh(seen0, head0, conns0) {
                            assert(false);
                        }
                    }
                    return Err(e);
                },
            }
        }
        proof {
            lemma_extends_trans(
                seen0,
                head0,
                seen2,
                head2,
                inno.seen@,
                inno.head,
            );
        }
        Ok(())
    }


    /// Crossover reproduction with another genome, our fitness compared to
    /// the other's by `self_fit`: the child's connections come from the
    /// crossover of the two connection lists, and its node list is rebuilt
    /// as sensory, action and bias nodes plus as many internal nodes as the
    /// child's connections reach.
    pub fn reproduce_with(
        &self,
        other: &CTRGenome,
        self_fit: core::cmp::Ordering,
        rng: &mut ProbBinding,
    ) -> (child: CTRGenome)
        requires
            self.wf(),
            other.wf(),
            old(rng).wf(),
        ensures
            final(rng).wf(),
            final(rng).probs == old(rng).probs,
            child.wf(),
            child.sensory == self.sensory,
            child.action == self.action,
            self_fit is Equal ==> crossover_eq_post(
                self.connections@,
                other.connections@,
                child.connections@,
            ),
            self_fit is Greater ==> crossover_ne_post(
                self.connections@,
                other.connections@,
                child.connections@,
            ),
            self_fit is Less ==> crossover_ne_post(
                other.connections@,
                self.connections@,
                child.connections@,
            ),
    {
        let connections = crossover(
            self.connections.as_slice(),
            other.connections.as_slice(),
            self_fit,
            rng,
        );
        let ghost n_bound = if self.nodes@.len() < other.nodes@.len() {
            other.nodes@.len() as int
        } else {
            self.nodes@.len() as int
        };
        proof {
            assert forall|i: int|
                0 <= i < connections@.len() implies (#[trigger] connections@[i]).from < n_bound
                && connections@[i].to < n_bound by {
                let c = connections@[i];
                if self_fit is Equal {
                    if has_inno(self.connections@, c.inno) && same_gene(
                        c,
                        at_inno(self.connections@, c.inno),
                    ) {
                        lemma_at_inno_bounds(self.connections@, c.inno, n_bound);
                    } else {
                        lemma_at_inno_bounds(other.connections@, c.inno, n_bound);
                    }
                } else if self_fit is Greater {
                    if same_gene(c, self.connections@[i]) {
                    } else {
                        lemma_at_inno_bounds(other.connections@, self.connections@[i].inno, n_bound);
                    }
                } else {
                    if same_gene(c, other.connections@[i]) {
                    } else {
                        lemma_at_inno_bounds(self.connections@, other.connections@[i].inno, n_bound);
                    }
                }
            }
        }
        let mut nodes_size: usize = 0;
        let mut k: usize = 0;
        while k < connections.len()
            invariant
                k <= connections@.len(),
                forall|i: int|
                    0 <= i < connections@.len() ==> (#[trigger] connections@[i]).from < n_bound
                        && connections@[i].to < n_bound,
                nodes_size < n_bound || nodes_size == 0,
                forall|i: int|
                    0 <= i < k ==> (#[trigger] connections@[i]).from <= nodes_size
                        && connections@[i].to <= nodes_size,
            decreases connections@.len() - k,
        {
            let c_from = connections[k].from;
            let c_to = connections[k].to;
            if c_from > nodes_size {
                nodes_size = c_from;
            }
            if c_to > nodes_size {
                nodes_size = c_to;
            }
            k += 1;
        }
        let mut nodes: Vec<CTRNode> = Vec::new();
        let mut i: usize = 0;
        while i < self.sensory
            invariant
                i <= self.sensory,
                nodes@.len() == i,
                forall|j: int| 0 <= j < i ==> nodes@[j] is Sensory,
            decreases self.sensory - i,
        {
            nodes.push(CTRNode::Sensory);
            i += 1;
        }
        let mut j: usize = 0;
        while j < self.action
            invariant
                j <= self.action,
                nodes@.len() == self.sensory + j,
                forall|k0: int| 0 <= k0 < self.sensory ==> nodes@[k0] is Sensory,
                forall|k0: int| self.sensory <= k0 < self.sensory + j ==> nodes@[k0] is Action,
            decreases self.action - j,
        {
            nodes.push(CTRNode::Action);
            j += 1;
        }
        nodes.push(CTRNode::Bias(R_ONE));
        while nodes.len() <= nodes_size
            invariant
                self.sensory + self.action < nodes@.len(),
                nodes@.len() <= if nodes_size + 1 > self.sensory + self.action + 1 {
                    nodes_size + 1
                } else {
                    self.sensory + self.action + 1
                },
                forall|k0: int|
                    0 <= k0 < nodes@.len() ==> node_ok(self.sensory, self.action, k0, nodes@[k0]),
            decreases nodes_size + 1 - nodes@.len(),
        {
            nodes.push(CTRNode::Internal);
        }
        CTRGenome { sensory: self.sensory, action: self.action, nodes, connections }
    }

    /// Compile this genome into its dense network form: a zeroed state row,
    /// the per-node biases, unit time constants, and a node-by-node weight
    /// matrix holding every enabled connection's weight at (from, to), with
    /// the sensory and action index ranges.
    pub fn network(&self) -> (net: Ctrnn)
        requires
            self.wf(),
            self.nodes@.len() * self.nodes@.len() <= usize::MAX,
        ensures
            ({
                let n = self.nodes@.len();
                &&& net.y@.len() == n
                &&& forall|i: int| 0 <= i < n ==> net.y@[i] == R_ZERO
                &&& net.theta@.len() == n
                &&& forall|i: int| 0 <= i < n ==> net.theta@[i] == theta_of(self.nodes@[i])
                &&& net.tau@.len() == n
                &&& forall|i: int| 0 <= i < n ==> net.tau@[i] == R_ONE
                &&& net.w@.len() == n * n
                &&& forall|f: int, t: int|
                    0 <= f < n && 0 <= t < n ==> net.w@[f * n + t] == #[trigger] spec_net_weight(
                        self.connections@,
                        f as usize,
                        t as usize,
                    )
                &&& net.sensory == (0usize, self.sensory)
                &&& net.action == (self.sensory, (self.sensory + self.action) as usize)
            }),
    {
        let n = self.nodes.len();
        let mut y: Vec<u64> = Vec::new();
        let mut theta: Vec<u64> = Vec::new();
        let mut tau: Vec<u64> = Vec::new();
        let mut i: usize = 0;
        while i < n
            invariant
                i <= n == self.nodes@.len(),
                y@.len() == i,
                theta@.len() == i,
                tau@.len() == i,
                forall|k: int| 0 <= k < i ==> y@[k] == R_ZERO,
                forall|k: int| 0 <= k < i ==> theta@[k] == theta_of(self.nodes@[k]),
                forall|k: int| 0 <= k < i ==> tau@[k] == R_ONE,
            decreases n - i,
        {
            y.push(R_ZERO);
            match self.nodes[i] {
                CTRNode::Bias(b) => theta.push(b),
                _ => theta.push(R_ZERO),
            }
            tau.push(R_ONE);
            i += 1;
        }
        let mut w: Vec<u64> = Vec::new();
        let mut z: usize = 0;
        proof {
            lemma_grid_index_bound(0, 0, n as int);
        }
        while z < n * n
            invariant
                z <= n * n <= usize::MAX,
                w@.len() == z,
                forall|k: int| 0 <= k < z ==> w@[k] == R_ZERO,
            decreases n * n - z,
        {
            w.push(R_ZERO);
            z += 1;
        }
        proof {
            assert(self.connections@.take(0) =~= Seq::<CTRConnection>::empty());
            assert forall|f: int, t: int| 0 <= f < n && 0 <= t < n implies w@[f * n + t]
                == #[trigger] spec_net_weight(self.connections@.take(0), f as usize, t as usize) by {
                lemma_grid_index_bound(f, t, n as int);
            }
        }
        let mut c: usize = 0;
        while c < self.connections.len()
            invariant
                c <= self.connections@.len(),
                n == self.nodes@.len(),
                n * n <= usize::MAX,
                self.wf(),
                w@.len() == n * n,
                forall|f: int, t: int|
                    0 <= f < n && 0 <= t < n ==> w@[f * n + t] == #[trigger] spec_net_weight(
                        self.connections@.take(c as int),
                        f as usize,
                        t as usize,
                    ),
            decreases self.connections@.len() - c,
        {
            let ghost w_pre = w@;
            let conn = self.connections[c];
            if conn.enabled {
                proof {
                    lemma_grid_index_bound(conn.from as int, conn.to as int, n as int);
                }
                w.set(conn.from * n + conn.to, conn.weight);
            }
            proof {
                assert forall|f: int, t: int| 0 <= f < n && 0 <= t < n implies w@[f * n + t]
                    == #[trigger] spec_net_weight(
                    self.connections@.take(c + 1),
                    f as usize,
                    t as usize,
                ) by {
                    lemma_grid_index_bound(f, t, n as int);
                    assert(w_pre[f * n + t] == spec_net_weight(
                        self.connections@.take(c as int),
                        f as usize,
                        t as usize,
                    ));
                    let s1 = self.connections@.take(c + 1);
                    assert(s1.len() == c + 1);
                    assert(s1.last() == self.connections@[c as int]);
                    assert(s1.drop_last() =~= self.connections@.take(c as int));
                    if conn.enabled && conn.from == f && conn.to == t {
                        assert(spec_net_weight(s1, f as usize, t as usize) == conn.weight);
                        assert(w@[f * n + t] == conn.weight);
                    } else {
                        assert(spec_net_weight(s1, f as usize, t as usize) == spec_net_weight(
                            self.connections@.take(c as int),
                            f as usize,
                            t as usize,
                        ));
                        if conn.enabled {
                            lemma_grid_index_bound(conn.from as int, conn.to as int, n as int);
                            if f * n + t == conn.from as int * n + conn.to {
                                lemma_grid_index_injective(
                                    f,
                                    t,
                                    conn.from as int,
                                    conn.to as int,
                                    n as int,
                                );
                            }
                        }
                        assert(w@[f * n + t] == w_pre[f * n + t]);
                    }
                }
            }
            c += 1;
        }
        proof {
            assert(self.connections@.take(self.connections@.len() as int) =~= self.connections@);
        }
        Ctrnn {
            y,
            theta,
            tau,
            w,
            sensory: (0, self.sensory),
            action: (self.sensory, self.sensory + self.action),
        }
    }

    /// The connections comprising this genome.
    pub fn connections(&self) -> (r: &Vec<CTRConnection>)
        ensures
            r == self.connections,
    {
        &self.connections
    }

    /// The nodes comprising this genome.
    pub fn nodes(&self) -> (r: &Vec<CTRNode>)
        ensures
            r == self.nodes,
    {
        &self.nodes
    }

    /// Push a new node onto the genome.
    pub fn push_node(&mut self, node: CTRNode)
        ensures
            final(self).nodes@ == old(self).nodes@.push(node),
            final(self).connections == old(self).connections,
            final(self).sensory == old(self).sensory,
            final(self).action == old(self).action,
    {
        self.nodes.push(node);
    }

    /// Push a connection onto the genome.
    pub fn push_connection(&mut self, connection: CTRConnection)
        ensures
            final(self).connections@ == old(self).connections@.push(connection),
            final(self).nodes == old(self).nodes,
            final(self).sensory == old(self).sensory,
            final(self).action == old(self).action,
    {
        self.connections.push(connection);
    }

    /// Push two connections onto the genome, first then second.
    pub fn push_2_connections(&mut self, first: CTRConnection, second: CTRConnection)
        ensures
            final(self).connections@ == old(self).connections@.push(first).push(second),
            final(self).nodes == old(self).nodes,
            final(self).sensory == old(self).sensory,
            final(self).action == old(self).action,
    {
        self.connections.push(first);
        self.connections.push(second);
    }
}

/// An element-by-element copy of a node list.
fn clone_nodes(v: &Vec<CTRNode>) -> (r: Vec<CTRNode>)
    ensures
        r@ == v@,
{
    let mut out: Vec<CTRNode> = Vec::new();
    let mut i: usize = 0;
    while i < v.len()
        invariant
            i <= v@.len(),
            out@ == v@.take(i as int),
        decreases v@.len() - i,
    {
        out.push(v[i]);
        proof {
            assert(out@ =~= v@.take(i + 1));
        }
        i += 1;
    }
    proof {
        assert(v@.take(i as int) =~= v@);
    }
    out
}

/// An element-by-element copy of a connection list.
pub(crate) fn clone_conns(v: &Vec<CTRConnection>) -> (r: Vec<CTRConnection>)
    ensures
        r@ == v@,
{
    let mut out: Vec<CTRConnection> = Vec::new();
    let mut i: usize = 0;
    while i < v.len()
        invariant
            i <= v@.len(),
            out@ == v@.take(i as int),
        decreases v@.len() - i,
    {
        out.push(v[i]);
        proof {
            assert(out@ =~= v@.take(i + 1));
        }
        i += 1;
    }
    proof {
        assert(v@.take(i as int) =~= v@);
    }
    out
}

impl Clone for CTRGenome {
    /// A verbatim copy: same counts, same nodes, same connections.
    fn clone(&self) -> (r: Self)
        ensures
            r.sensory == self.sensory,
            r.action == self.action,
            r.nodes@ == self.nodes@,
            r.connections@ == self.connections@,
    {
        CTRGenome {
            sensory: self.sensory,
            action: self.action,
            nodes: clone_nodes(&self.nodes),
            connections: clone_conns(&self.connections),
        }
    }
}

/// Two connections equal in everything but possibly their weight.
pub open spec fn same_but_weight(a: CTRConnection, b: CTRConnection) -> bool {
    a.inno == b.inno && a.from == b.from && a.to == b.to && a.enabled == b.enabled
}

/// Whether some connection of the sequence joins `f` to `t`.
pub open spec fn has_path(s: Seq<CTRConnection>, f: usize, t: usize) -> bool {
    exists|i: int| 0 <= i < s.len() && s[i].from == f && s[i].to == t
}

/// The number of cleared flags in a sequence.
pub open spec fn count_false(s: Seq<bool>) -> int
    decreases s.len(),
{
    if s.len() == 0 {
        0
    } else {
        count_false(s.drop_last()) + if s[s.len() - 1] {
            0int
        } else {
            1int
        }
    }
}

proof fn lemma_count_false_nonneg(s: Seq<bool>)
    ensures
        count_false(s) >= 0,
    decreases s.len(),
{
    if s.len() > 0 {
        lemma_count_false_nonneg(s.drop_last());
    }
}

proof fn lemma_count_false_push(s: Seq<bool>, b: bool)
    ensures
        count_false(s.push(b)) == count_false(s) + if b {
            0int
        } else {
            1int
        },
{
    assert(s.push(b).drop_last() =~= s);
}

proof fn lemma_count_false_update(s: Seq<bool>, i: int)
    requires
        0 <= i < s.len(),
        !s[i],
    ensures
        count_false(s.update(i, true)) == count_false(s) - 1,
    decreases s.len(),
{
    let t = s.update(i, true);
    if i == s.len() - 1 {
        assert(t.drop_last() =~= s.drop_last());
    } else {
        assert(t.drop_last() =~= s.drop_last().update(i, true));
        lemma_count_false_update(s.drop_last(), i);
        assert(t[t.len() - 1] == s[s.len() - 1]);
    }
}

proof fn lemma_count_false_zero(s: Seq<bool>)
    requires
        count_false(s) == 0,
    ensures
        forall|i: int| 0 <= i < s.len() ==> s[i],
    decreases s.len(),
{
    if s.len() > 0 {
        lemma_count_false_nonneg(s.drop_last());
        lemma_count_false_zero(s.drop_last());
        assert forall|i: int| 0 <= i < s.len() implies s[i] by {
            if i < s.len() - 1 {
                assert(s.drop_last()[i]);
            }
        }
    }
}

} // verus!
