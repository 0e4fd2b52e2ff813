//! Species: innovation-id assignment, partitioning a population by
//! compatibility, and per-species reproduction.

use crate::crossover::delta;
use crate::crossover::spec_delta;
use crate::fp::add_bits;
use crate::fp::bits_of_usize;
use crate::fp::div_bits;
use crate::fp::float_key;
use crate::fp::le_bits;
use crate::fp::lt_bits;
use crate::fp::mul_bits;
use crate::fp::r_add;
use crate::fp::r_div;
use crate::fp::r_le;
use crate::fp::r_lt;
use crate::fp::r_mul;
use crate::fp::r_of_usize;
use crate::fp::r_round;
use crate::fp::r_to_usize;
use crate::fp::round_bits;
use crate::fp::spec_float_key;
use crate::fp::spec_is_nan;
use crate::fp::usize_of_bits;
use crate::fp::R_ONE;
use crate::fp::R_ZERO;
use crate::crossover::crossover_eq_post;
use crate::crossover::crossover_ne_post;
use crate::crossover::gene_from;
use crate::crossover::has_inno;
use crate::genome::recurrent::clone_conns;
use crate::genome::recurrent::genome_eq;
use crate::genome::recurrent::sorted_by_inno;
use crate::genome::recurrent::CTRConnection;
use crate::genome::recurrent::CTRGenome;
use crate::rng::ProbBinding;
use crate::EvolutionError;
use std::collections::HashMap;
use vstd::multiset::Multiset;
use vstd::prelude::*;

verus! {

broadcast use
    vstd::std_specs::hash::group_hash_axioms,
    vstd::seq_lib::group_to_multiset_ensures,
    vstd::seq_lib::to_multiset_update;

/// The factor that separates the halves of a packed (from, to) pair.
pub const PATH_SPLIT: u128 = 0x1_0000_0000_0000_0000;

/// A (from, to) pair packed into a single integer, the high half holding
/// `from`.
pub open spec fn pack_path(v: (usize, usize)) -> u128 {
    (v.0 * 0x1_0000_0000_0000_0000 + v.1) as u128
}

/// Packing a pair of node indices into one integer loses nothing: equal
/// packings come from equal pairs.
pub proof fn lemma_pack_path_injective(a: (usize, usize), b: (usize, usize))
    requires
        pack_path(a) == pack_path(b),
    ensures
        a == b,
{
    assert(a.0 == b.0 && a.1 == b.1) by (nonlinear_arith)
        requires
            a.0 * 0x1_0000_0000_0000_0000 + a.1 == b.0 * 0x1_0000_0000_0000_0000 + b.1,
            a.1 < 0x1_0000_0000_0000_0000,
            b.1 < 0x1_0000_0000_0000_0000,
            a.0 >= 0,
            b.0 >= 0,
    ;
}

/// What a lookup in the registry returns: the id already on record for the
/// key, or the head about to be assigned to it.
pub open spec fn inno_result(seen: Map<u128, usize>, head: usize, key: u128) -> usize {
    if seen.contains_key(key) {
        seen[key]
    } else {
        head
    }
}

/// The record after a lookup: unchanged for a known key, extended by
/// `key -> head` for a fresh one.
pub open spec fn inno_seen_after(seen: Map<u128, usize>, head: usize, key: u128) -> Map<
    u128,
    usize,
> {
    if seen.contains_key(key) {
        seen
    } else {
        seen.insert(key, head)
    }
}

/// The head after a lookup: advanced by exactly one for a fresh key,
/// untouched for a known one.
pub open spec fn inno_head_after(seen: Map<u128, usize>, head: usize, key: u128) -> int {
    if seen.contains_key(key) {
        head as int
    } else {
        head + 1
    }
}

/// Within one registry, looking a pair up twice returns the same id both
/// times, and the head advances exactly once per distinct pair: the second
/// lookup changes nothing.
pub proof fn lemma_innovation_idempotent(seen: Map<u128, usize>, head: usize, key: u128)
    requires
        head < usize::MAX,
    ensures
        inno_result(
            inno_seen_after(seen, head, key),
            inno_head_after(seen, head, key) as usize,
            key,
        ) == inno_result(seen, head, key),
        inno_seen_after(
            inno_seen_after(seen, head, key),
            inno_head_after(seen, head, key) as usize,
            key,
        ) == inno_seen_after(seen, head, key),
        inno_head_after(
            inno_seen_after(seen, head, key),
            inno_head_after(seen, head, key) as usize,
            key,
        ) == inno_head_after(seen, head, key),
{
}

/// The registry-record invariant over its parts: every id on record was
/// assigned before the head reached its place, and no two paths share an
/// id.
pub open spec fn seen_ok(seen: Map<u128, usize>, head: usize) -> bool {
    &&& forall|k: u128| #[trigger] seen.contains_key(k) ==> seen[k] < head
    &&& forall|k1: u128, k2: u128|
        #![trigger seen[k1], seen[k2]]
        seen.contains_key(k1) && seen.contains_key(k2) && k1 != k2 ==> seen[k1] != seen[k2]
}

/// An id that lies strictly below everything the registry can hand out:
/// below the head and below every id already on record.
pub open spec fn inno_fresh(seen: Map<u128, usize>, head: usize, id: int) -> bool {
    id < head && (forall|k: u128| #[trigger] seen.contains_key(k) ==> id < seen[k])
}

/// Every innovation id of the sequence lies strictly below everything the
/// registry can hand out: the registry was set up for a generation that
/// follows the sequence's ids.
pub open spec fn registry_fresh(seen: Map<u128, usize>, head: usize, s: Seq<CTRConnection>) -> bool {
    forall|i: int| 0 <= i < s.len() ==> inno_fresh(seen, head, (#[trigger] s[i]).inno as int)
}

/// A registry state reachable from another by lookups: old entries keep
/// their ids, new entries get ids at or above the old head, and the head
/// does not go back.
pub open spec fn registry_extends(
    seen0: Map<u128, usize>,
    head0: usize,
    seen1: Map<u128, usize>,
    head1: usize,
) -> bool {
    &&& head0 <= head1
    &&& forall|k: u128| #[trigger]
        seen0.contains_key(k) ==> seen1.contains_key(k) && seen1[k] == seen0[k]
    &&& forall|k: u128| #[trigger]
        seen1.contains_key(k) ==> seen0.contains_key(k) || seen1[k] >= head0
}

/// Extension is transitive.
pub proof fn lemma_extends_trans(
    seen0: Map<u128, usize>,
    head0: usize,
    seen1: Map<u128, usize>,
    head1: usize,
    seen2: Map<u128, usize>,
    head2: usize,
)
    requires
        registry_extends(seen0, head0, seen1, head1),
        registry_extends(seen1, head1, seen2, head2),
    ensures
        registry_extends(seen0, head0, seen2, head2),
{
    assert forall|k: u128| #[trigger]
        seen2.contains_key(k) implies seen0.contains_key(k) || seen2[k] >= head0 by {
        if !seen0.contains_key(k) {
            if seen1.contains_key(k) {
                assert(seen2[k] == seen1[k] && seen1[k] >= head0);
            } else {
                assert(seen2[k] >= head1 >= head0);
            }
        }
    }
}

/// One lookup step keeps the record invariant and extends the registry.
pub proof fn lemma_step_properties(seen: Map<u128, usize>, head: usize, key: u128)
    requires
        seen_ok(seen, head),
        head < usize::MAX,
    ensures
        seen_ok(inno_seen_after(seen, head, key), inno_head_after(seen, head, key) as usize),
        registry_extends(
            seen,
            head,
            inno_seen_after(seen, head, key),
            inno_head_after(seen, head, key) as usize,
        ),
{
}

/// Freshness for a sequence survives a registry extension: everything the
/// extended registry can hand out is an old recorded id or at least the old
/// head, both above the sequence's ids.
pub proof fn lemma_fresh_extends(
    seen0: Map<u128, usize>,
    head0: usize,
    seen1: Map<u128, usize>,
    head1: usize,
    s: Seq<CTRConnection>,
)
    requires
        registry_fresh(seen0, head0, s),
        registry_extends(seen0, head0, seen1, head1),
    ensures
        registry_fresh(seen1, head1, s),
{
    assert forall|i: int| 0 <= i < s.len() implies inno_fresh(
        seen1,
        head1,
        (#[trigger] s[i]).inno as int,
    ) by {
        assert(inno_fresh(seen0, head0, s[i].inno as int));
        assert forall|k: u128| #[trigger]
            seen1.contains_key(k) implies s[i].inno < seen1[k] by {
            if seen0.contains_key(k) {
                assert(seen1[k] == seen0[k]);
            } else {
                assert(seen1[k] >= head0);
            }
        }
    }
}

/// A lookup in a registry fresh for a sequence returns an id the sequence
/// does not hold.
pub proof fn lemma_fresh_result_not_held(
    seen: Map<u128, usize>,
    head: usize,
    key: u128,
    s: Seq<CTRConnection>,
)
    requires
        registry_fresh(seen, head, s),
    ensures
        !has_inno(s, inno_result(seen, head, key)),
{
    if has_inno(s, inno_result(seen, head, key)) {
        let i = choose|i: int| 0 <= i < s.len() && s[i].inno == inno_result(seen, head, key);
        assert(inno_fresh(seen, head, s[i].inno as int));
        if seen.contains_key(key) {
            assert(s[i].inno < seen[key]);
        } else {
            assert(s[i].inno < head);
        }
    }
}

/// The second of two lookups on distinct keys returns an id distinct from
/// the first's.
pub proof fn lemma_step_ids_distinct(seen: Map<u128, usize>, head: usize, k1: u128, k2: u128)
    requires
        seen_ok(seen, head),
        head < usize::MAX,
        k1 != k2,
    ensures
        inno_result(seen, head, k1) != inno_result(
            inno_seen_after(seen, head, k1),
            inno_head_after(seen, head, k1) as usize,
            k2,
        ),
{
}

/// The second lookup's id is also not held by a sequence the registry is
/// fresh for.
pub proof fn lemma_fresh_step_result_not_held(
    seen: Map<u128, usize>,
    head: usize,
    k1: u128,
    k2: u128,
    s: Seq<CTRConnection>,
)
    requires
        seen_ok(seen, head),
        head < usize::MAX,
        registry_fresh(seen, head, s),
    ensures
        !has_inno(
            s,
            inno_result(
                inno_seen_after(seen, head, k1),
                inno_head_after(seen, head, k1) as usize,
                k2,
            ),
        ),
{
    lemma_step_properties(seen, head, k1);
    lemma_fresh_extends(
        seen,
        head,
        inno_seen_after(seen, head, k1),
        inno_head_after(seen, head, k1) as usize,
        s,
    );
    lemma_fresh_result_not_held(
        inno_seen_after(seen, head, k1),
        inno_head_after(seen, head, k1) as usize,
        k2,
        s,
    );
}

/// Every member genome's ids lie below everything the registry can hand
/// out.
pub open spec fn members_fresh(
    seen: Map<u128, usize>,
    head: usize,
    ms: Seq<(CTRGenome, u64)>,
) -> bool {
    forall|mi: int|
        0 <= mi < ms.len() ==> registry_fresh(seen, head, (#[trigger] ms[mi]).0.connections@)
}

/// Member freshness survives a registry extension.
pub proof fn lemma_members_fresh_extends(
    seen0: Map<u128, usize>,
    head0: usize,
    seen1: Map<u128, usize>,
    head1: usize,
    ms: Seq<(CTRGenome, u64)>,
)
    requires
        members_fresh(seen0, head0, ms),
        registry_extends(seen0, head0, seen1, head1),
    ensures
        members_fresh(seen1, head1, ms),
{
    assert forall|mi: int| 0 <= mi < ms.len() implies registry_fresh(
        seen1,
        head1,
        (#[trigger] ms[mi]).0.connections@,
    ) by {
        lemma_fresh_extends(seen0, head0, seen1, head1, ms[mi].0.connections@);
    }
}

/// A crossover child's ids all come from its parents, so a registry fresh
/// for both parents is fresh for the child.
pub proof fn lemma_child_fresh(
    seen: Map<u128, usize>,
    head: usize,
    l: Seq<CTRConnection>,
    r: Seq<CTRConnection>,
    child: Seq<CTRConnection>,
    ord: core::cmp::Ordering,
)
    requires
        registry_fresh(seen, head, l),
        registry_fresh(seen, head, r),
        ord is Equal ==> crossover_eq_post(l, r, child),
        ord is Greater ==> crossover_ne_post(l, r, child),
        ord is Less ==> crossover_ne_post(r, l, child),
    ensures
        registry_fresh(seen, head, child),
{
    assert forall|i: int| 0 <= i < child.len() implies inno_fresh(
        seen,
        head,
        (#[trigger] child[i]).inno as int,
    ) by {
        if ord is Equal {
            assert(gene_from(l, r, child[i]));
            if has_inno(l, child[i].inno) {
                let w = choose|w: int| 0 <= w < l.len() && l[w].inno == child[i].inno;
                assert(inno_fresh(seen, head, l[w].inno as int));
            } else {
                let w = choose|w: int| 0 <= w < r.len() && r[w].inno == child[i].inno;
                assert(inno_fresh(seen, head, r[w].inno as int));
            }
        } else if ord is Greater {
            assert(child[i].inno == l[i].inno);
            assert(inno_fresh(seen, head, l[i].inno as int));
        } else {
            assert(child[i].inno == r[i].inno);
            assert(inno_fresh(seen, head, r[i].inno as int));
        }
    }
}

/// Whether every possible bisection of the sequence would receive two
/// distinct ids the sequence does not hold: for each connection, the two
/// lookups for its halves around the center node return fresh, distinct
/// ids.
pub open spec fn bisection_ids_ok(
    seen: Map<u128, usize>,
    head: usize,
    s: Seq<CTRConnection>,
    center: usize,
) -> bool {
    forall|pick: int|
        0 <= pick < s.len() ==> {
            let c = #[trigger] s[pick];
            let key1 = pack_path((c.from, center));
            let id1 = inno_result(seen, head, key1);
            let seen1 = inno_seen_after(seen, head, key1);
            let head1 = inno_head_after(seen, head, key1) as usize;
            let id2 = inno_result(seen1, head1, pack_path((center, c.to)));
            id1 != id2 && !has_inno(s, id1) && !has_inno(s, id2)
        }
}

/// Reading one entry of the bisection-id guarantee: the two ids for the
/// chosen connection's halves differ and are not yet held.
pub proof fn lemma_bisection_ids_ok_at(
    seen: Map<u128, usize>,
    head: usize,
    s: Seq<CTRConnection>,
    center: usize,
    pick: int,
)
    requires
        bisection_ids_ok(seen, head, s, center),
        0 <= pick < s.len(),
    ensures
        ({
            let c = s[pick];
            let key1 = pack_path((c.from, center));
            let id1 = inno_result(seen, head, key1);
            let seen1 = inno_seen_after(seen, head, key1);
            let head1 = inno_head_after(seen, head, key1) as usize;
            let id2 = inno_result(seen1, head1, pack_path((center, c.to)));
            id1 != id2 && !has_inno(s, id1) && !has_inno(s, id2)
        }),
{
    assert(0 <= pick < s.len());
}

/// A registry fresh for a sequence whose connections lie below the center
/// node hands every bisection two fresh, distinct ids.
pub proof fn lemma_fresh_bisection_ok(
    seen: Map<u128, usize>,
    head: usize,
    s: Seq<CTRConnection>,
    center: usize,
)
    requires
        seen_ok(seen, head),
        head < usize::MAX,
        registry_fresh(seen, head, s),
        forall|i: int| 0 <= i < s.len() ==> (#[trigger] s[i]).from < center && s[i].to < center,
    ensures
        bisection_ids_ok(seen, head, s, center),
{
    assert forall|pick: int| 0 <= pick < s.len() implies {
        let c = #[trigger] s[pick];
        let key1 = pack_path((c.from, center));
        let id1 = inno_result(seen, head, key1);
        let seen1 = inno_seen_after(seen, head, key1);
        let head1 = inno_head_after(seen, head, key1) as usize;
        let id2 = inno_result(seen1, head1, pack_path((center, c.to)));
        id1 != id2 && !has_inno(s, id1) && !has_inno(s, id2)
    } by {
        let c = s[pick];
        let k1 = pack_path((c.from, center));
        let k2 = pack_path((center, c.to));
        assert(k1 != k2) by {
            if k1 == k2 {
                lemma_pack_path_injective((c.from, center), (center, c.to));
            }
        }
        lemma_step_ids_distinct(seen, head, k1, k2);
        lemma_fresh_result_not_held(seen, head, k1, s);
        lemma_fresh_step_result_not_held(seen, head, k1, k2, s);
    }
}

/// After one connection along a fresh pair below the center is added under
/// the registry, every bisection of the grown sequence still receives two
/// fresh, distinct ids from the stepped registry.
pub proof fn lemma_bisection_ok_after_connection(
    seen: Map<u128, usize>,
    head: usize,
    s: Seq<CTRConnection>,
    s1: Seq<CTRConnection>,
    f: usize,
    t: usize,
    center: usize,
)
    requires
        seen_ok(seen, head),
        head + 1 < usize::MAX,
        registry_fresh(seen, head, s),
        f < center,
        t < center,
        forall|i: int| 0 <= i < s.len() ==> (#[trigger] s[i]).from < center && s[i].to < center,
        forall|j: int|
            0 <= j < s1.len() ==> ((#[trigger] s1[j]).inno == inno_result(
                seen,
                head,
                pack_path((f, t)),
            ) && s1[j].from == f && s1[j].to == t) || s.contains(s1[j]),
    ensures
        bisection_ids_ok(
            inno_seen_after(seen, head, pack_path((f, t))),
            inno_head_after(seen, head, pack_path((f, t))) as usize,
            s1,
            center,
        ),
{
    let key0 = pack_path((f, t));
    let id0 = inno_result(seen, head, key0);
    let seen_a = inno_seen_after(seen, head, key0);
    let head_a = inno_head_after(seen, head, key0) as usize;
    lemma_step_properties(seen, head, key0);
    lemma_fresh_extends(seen, head, seen_a, head_a, s);
    assert forall|pick: int| 0 <= pick < s1.len() implies {
        let c = #[trigger] s1[pick];
        let key1 = pack_path((c.from, center));
        let id1 = inno_result(seen_a, head_a, key1);
        let seen_b = inno_seen_after(seen_a, head_a, key1);
        let head_b = inno_head_after(seen_a, head_a, key1) as usize;
        let id2 = inno_result(seen_b, head_b, pack_path((center, c.to)));
        id1 != id2 && !has_inno(s1, id1) && !has_inno(s1, id2)
    } by {
        let c = s1[pick];
        assert(c.from < center && c.to < center) by {
            if !(c.inno == id0 && c.from == f && c.to == t) {
                let w = choose|w: int| 0 <= w < s.len() && s[w] == c;
                assert(s[w].from < center && s[w].to < center);
            }
        }
        let k1 = pack_path((c.from, center));
        let k2 = pack_path((center, c.to));
        let id1 = inno_result(seen_a, head_a, k1);
        let seen_b = inno_seen_after(seen_a, head_a, k1);
        let head_b = inno_head_after(seen_a, head_a, k1) as usize;
        let id2 = inno_result(seen_b, head_b, k2);
        assert(k1 != k2) by {
            if k1 == k2 {
                lemma_pack_path_injective((c.from, center), (center, c.to));
            }
        }
        assert(k1 != key0) by {
            if k1 == key0 {
                lemma_pack_path_injective((c.from, center), (f, t));
            }
        }
        assert(k2 != key0) by {
            if k2 == key0 {
                lemma_pack_path_injective((center, c.to), (f, t));
            }
        }
        lemma_step_ids_distinct(seen_a, head_a, k1, k2);
        assert(id1 != id0) by {
            if seen_a.contains_key(k1) {
                assert(seen.contains_key(k1) && seen_a[k1] == seen[k1]);
                if seen.contains_key(key0) {
                    assert(seen[k1] != seen[key0]);
                } else {
                    assert(seen[k1] < head && id0 == head);
                }
            } else {
                assert(id1 == head_a);
                if seen.contains_key(key0) {
                    assert(id0 == seen[key0] < head && head_a == head);
                } else {
                    assert(id0 == head && head_a == head + 1);
                }
            }
        }
        assert(id2 != id0) by {
            if seen_b.contains_key(k2) {
                assert(seen.contains_key(k2) && seen_b[k2] == seen[k2]);
                if seen.contains_key(key0) {
                    assert(seen[k2] != seen[key0]);
                } else {
                    assert(seen[k2] < head && id0 == head);
                }
            } else {
                assert(id2 == head_b);
                if seen.contains_key(key0) {
                    assert(id0 == seen[key0] < head && head <= head_b);
                } else {
                    assert(id0 == head && head_b >= head + 1);
                }
            }
        }
        lemma_fresh_result_not_held(seen_a, head_a, k1, s);
        lemma_fresh_step_result_not_held(seen_a, head_a, k1, k2, s);
        assert(!has_inno(s1, id1)) by {
            if has_inno(s1, id1) {
                let i = choose|i: int| 0 <= i < s1.len() && s1[i].inno == id1;
                if s1[i].inno == id0 && s1[i].from == f && s1[i].to == t {
                } else {
                    let w = choose|w: int| 0 <= w < s.len() && s[w] == s1[i];
                    assert(has_inno(s, id1));
                }
            }
        }
        assert(!has_inno(s1, id2)) by {
            if has_inno(s1, id2) {
                let i = choose|i: int| 0 <= i < s1.len() && s1[i].inno == id2;
                if s1[i].inno == id0 && s1[i].from == f && s1[i].to == t {
                } else {
                    let w = choose|w: int| 0 <= w < s.len() && s[w] == s1[i];
                    assert(has_inno(s, id2));
                }
            }
        }
    }
}

/// The innovation registry of one generation: a record of the ids handed to
/// (from, to) paths, and the next free id.
pub struct InnoGen {
    pub head: usize,
    pub seen: HashMap<u128, usize>,
}

impl InnoGen {
    /// The record invariant: ids below the head, no id shared.
    pub open spec fn wf(self) -> bool {
        seen_ok(self.seen@, self.head)
    }

    /// A fresh registry that will assign ids starting at `head`.
    pub fn new(head: usize) -> (r: Self)
        ensures
            r.wf(),
            r.head == head,
            r.seen@ == Map::<u128, usize>::empty(),
    {
        InnoGen { head, seen: HashMap::new() }
    }

    /// The id of the (from, to) path within this generation: the id already
    /// on record for it, or a newly assigned one, the head advancing exactly
    /// when the path is new. Equal paths get equal ids for the life of the
    /// registry.
    pub fn path(&mut self, v: (usize, usize)) -> (r: usize)
        requires
            old(self).wf(),
            old(self).head < usize::MAX,
        ensures
            final(self).wf(),
            r == inno_result(old(self).seen@, old(self).head, pack_path(v)),
            final(self).seen@ == inno_seen_after(old(self).seen@, old(self).head, pack_path(v)),
            final(self).head == inno_head_after(old(self).seen@, old(self).head, pack_path(v)),
            r < final(self).head,
    {
        let key = pack_path_exec(v);
        match self.seen.get(&key) {
            Some(n) => *n,
            None => {
                let n = self.head;
                self.head = self.head + 1;
                self.seen.insert(key, n);
                n
            },
        }
    }
}

/// The packed form of a (from, to) pair, fitting both halves side by side.
fn pack_path_exec(v: (usize, usize)) -> (r: u128)
    ensures
        r == pack_path(v),
{
    proof {
        assert(v.0 * 0x1_0000_0000_0000_0000 + v.1 < 0x1_0000_0000_0000_0000_0000_0000_0000_0000)
            by (nonlinear_arith)
            requires
                v.0 < 0x1_0000_0000_0000_0000,
                v.1 < 0x1_0000_0000_0000_0000,
        ;
    }
    (v.0 as u128) * PATH_SPLIT + (v.1 as u128)
}

/// Two distinct indices below `len`, drawn in one pass: two independent
/// draws, the second shifted up by one (wrapping to 0) when they collide.
/// There are too few indices exactly when `len < 2`.
pub fn uniq_2(len: usize, rng: &mut ProbBinding) -> (r: Option<(usize, usize)>)
    requires
        old(rng).wf(),
    ensures
        final(rng).wf(),
        final(rng).probs == old(rng).probs,
        r is None <==> len < 2,
        r matches Some((a, b)) ==> a < len && b < len && a != b,
{
    if len < 2 {
        return None;
    }
    let a = rng.below(len);
    let b = rng.below(len);
    if a == b {
        if b + 1 == len {
            Some((a, 0))
        } else {
            Some((a, b + 1))
        }
    } else {
        Some((a, b))
    }
}

/// Removing the element at `i` by swapping the last element into its place
/// takes exactly one occurrence of that element out of the sequence's
/// multiset.
proof fn lemma_swap_remove_multiset<T>(s: Seq<T>, i: int)
    requires
        0 <= i < s.len(),
    ensures
        s.update(i, s.last()).drop_last().to_multiset() == s.to_multiset().remove(s[i]),
{
    let u = s.update(i, s.last());
    assert(u.to_multiset() == s.to_multiset().insert(s.last()).remove(s[i]));
    assert(u.drop_last().push(u.last()) =~= u);
    assert(u.drop_last().push(u.last()).to_multiset() =~= u.drop_last().to_multiset().insert(
        u.last(),
    ));
    assert(u.last() == s.last());
    assert(s.to_multiset().count(s[i]) > 0) by {
        assert(s.contains(s[i]));
    }
    assert forall|e: T| u.drop_last().to_multiset().count(e) == s.to_multiset().remove(
        s[i],
    ).count(e) by {
        assert(u.drop_last().to_multiset().insert(u.last()).count(e) == s.to_multiset().insert(
            s.last(),
        ).remove(s[i]).count(e));
    }
    assert(u.drop_last().to_multiset() =~= s.to_multiset().remove(s[i]));
}

/// An empty sequence has an empty multiset.
proof fn lemma_empty_multiset<T>(s: Seq<T>)
    requires
        s.len() == 0,
    ensures
        s.to_multiset() == Multiset::<T>::empty(),
{
    assert forall|e: T| s.to_multiset().count(e) == 0 by {
        if s.to_multiset().count(e) > 0 {
            assert(s.contains(e));
        }
    }
    assert(s.to_multiset() =~= Multiset::<T>::empty());
}

/// Sort fitness-tagged items into descending fitness order: the result is a
/// permutation of the input whose order keys never increase left to right.
fn sort_by_fit_desc<T>(v: &mut Vec<(T, u64)>)
    ensures
        final(v)@.len() == old(v)@.len(),
        final(v)@.to_multiset() == old(v)@.to_multiset(),
        forall|i: int, j: int|
            0 <= i < j < final(v)@.len() ==> spec_float_key(#[trigger] final(v)@[j].1)
                <= spec_float_key(#[trigger] final(v)@[i].1),
{
    let mut out: Vec<(T, u64)> = Vec::new();
    proof {
        lemma_empty_multiset(out@);
        assert(out@.to_multiset().add(v@.to_multiset()) =~= v@.to_multiset());
    }
    while v.len() > 0
        invariant
            out@.len() + v@.len() == old(v)@.len(),
            out@.to_multiset().add(v@.to_multiset()) == old(v)@.to_multiset(),
            forall|i: int, j: int|
                0 <= i < j < out@.len() ==> spec_float_key(#[trigger] out@[j].1) <= spec_float_key(
                    #[trigger] out@[i].1,
                ),
            forall|i: int, j: int|
                0 <= i < out@.len() && 0 <= j < v@.len() ==> spec_float_key(#[trigger] v@[j].1)
                    <= spec_float_key(#[trigger] out@[i].1),
        decreases v@.len(),
    {
        let mut m: usize = 0;
        let mut j: usize = 1;
        while j < v.len()
            invariant
                v@.len() > 0,
                m < j,
                j <= v@.len(),
                forall|k: int|
                    0 <= k < j ==> spec_float_key(#[trigger] v@[k].1) <= spec_float_key(
                        v@[m as int].1,
                    ),
            decreases v@.len() - j,
        {
            if float_key(v[m].1) < float_key(v[j].1) {
                m = j;
            }
            j += 1;
        }
        let ghost v0 = v@;
        let x = v.swap_remove(m);
        proof {
            lemma_swap_remove_multiset(v0, m as int);
            assert(v0[m as int] == x);
            assert(v0.to_multiset().count(x) > 0) by {
                assert(v0.contains(x));
            }
            assert(out@.push(x).to_multiset() =~= out@.to_multiset().insert(x));
            assert forall|e: (T, u64)|
                out@.push(x).to_multiset().add(v@.to_multiset()).count(e) == old(
                    v,
                )@.to_multiset().count(e) by {
                assert(out@.to_multiset().add(v0.to_multiset()).count(e) == old(
                    v,
                )@.to_multiset().count(e));
            }
            assert(out@.push(x).to_multiset().add(v@.to_multiset()) =~= old(v)@.to_multiset());
            assert forall|jj: int| 0 <= jj < v@.len() implies spec_float_key(#[trigger] v@[jj].1)
                <= spec_float_key(x.1) by {
                if jj == m && m < v0.len() - 1 {
                    assert(v@[jj] == v0.last());
                } else {
                    assert(v@[jj] == v0[jj]);
                }
            }
        }
        out.push(x);
    }
    proof {
        lemma_empty_multiset(v@);
        assert forall|e: (T, u64)| out@.to_multiset().count(e) == old(v)@.to_multiset().count(
            e,
        ) by {
            assert(out@.to_multiset().add(v@.to_multiset()).count(e) == old(
                v,
            )@.to_multiset().count(e));
        }
        assert(out@.to_multiset() =~= old(v)@.to_multiset());
    }
    *v = out;
}

/// The order of two fitness values, by the IEEE-754 comparisons: `Less`
/// exactly when the left is below the right, `Greater` exactly when it is
/// above, and `Equal` when neither is.
fn fit_cmp(a: u64, b: u64) -> (o: core::cmp::Ordering)
    ensures
        o is Less <==> lt_bits(a, b),
        o is Greater <==> (!lt_bits(a, b) && lt_bits(b, a)),
        o is Equal <==> (!lt_bits(a, b) && !lt_bits(b, a)),
{
    if r_lt(a, b) {
        core::cmp::Ordering::Less
    } else if r_lt(b, a) {
        core::cmp::Ordering::Greater
    } else {
        core::cmp::Ordering::Equal
    }
}

/// The registry head the next generation should start from: one above
/// every innovation id the population holds, and 0 for a population
/// without connections.
pub fn next_inno_head(population: &Vec<CTRGenome>) -> (r: usize)
    requires
        forall|i: int, j: int|
            #![trigger population@[i].connections@[j]]
            0 <= i < population@.len() && 0 <= j < population@[i].connections@.len()
                ==> population@[i].connections@[j].inno < usize::MAX,
    ensures
        forall|i: int, j: int|
            #![trigger population@[i].connections@[j]]
            0 <= i < population@.len() && 0 <= j < population@[i].connections@.len()
                ==> population@[i].connections@[j].inno < r,
        forall|i: int|
            0 <= i < population@.len() ==> registry_fresh(
                Map::<u128, usize>::empty(),
                r,
                (#[trigger] population@[i]).connections@,
            ),
{
    let mut r: usize = 0;
    let mut i: usize = 0;
    while i < population.len()
        invariant
            i <= population@.len(),
            forall|i0: int, j: int|
                #![trigger population@[i0].connections@[j]]
                0 <= i0 < population@.len() && 0 <= j < population@[i0].connections@.len()
                    ==> population@[i0].connections@[j].inno < usize::MAX,
            forall|i0: int, j: int|
                #![trigger population@[i0].connections@[j]]
                0 <= i0 < i && 0 <= j < population@[i0].connections@.len()
                    ==> population@[i0].connections@[j].inno < r,
        decreases population@.len() - i,
    {
        let conns = &population[i].connections;
        let mut j: usize = 0;
        while j < conns.len()
            invariant
                j <= conns@.len(),
                conns@ == population@[i as int].connections@,
                i < population@.len(),
                forall|i0: int, j0: int|
                    #![trigger population@[i0].connections@[j0]]
                    0 <= i0 < population@.len() && 0 <= j0 < population@[i0].connections@.len()
                        ==> population@[i0].connections@[j0].inno < usize::MAX,
                forall|i0: int, j0: int|
                    #![trigger population@[i0].connections@[j0]]
                    0 <= i0 < i && 0 <= j0 < population@[i0].connections@.len()
                        ==> population@[i0].connections@[j0].inno < r,
                forall|j0: int|
                    0 <= j0 < j ==> (#[trigger] conns@[j0]).inno < r,
        decreases conns@.len() - j,
        {
            if conns[j].inno >= r {
                r = conns[j].inno + 1;
            }
            j += 1;
        }
        i += 1;
    }
    proof {
        assert forall|i0: int|
            0 <= i0 < population@.len() implies registry_fresh(
            Map::<u128, usize>::empty(),
            r,
            (#[trigger] population@[i0]).connections@,
        ) by {
            assert forall|k: int|
                0 <= k < population@[i0].connections@.len() implies inno_fresh(
                Map::<u128, usize>::empty(),
                r,
                (#[trigger] population@[i0].connections@[k]).inno as int,
            ) by {
                assert(population@[i0].connections@[k].inno < r);
            }
        }
    }
    r
}

/// The compatibility threshold under which a genome joins a species: the
/// bit pattern of 4.0.
pub const SPECIE_THRESHOLD: u64 = 0x4010_0000_0000_0000;

/// The connection sequence a species measures candidates against: a copy of
/// the first genome assigned to the species.
#[derive(Debug)]
pub struct SpecieRepr(pub Vec<CTRConnection>);

impl SpecieRepr {
    /// The compatibility distance between this representative and a
    /// connection sequence.
    pub fn delta(&self, other: &[CTRConnection]) -> (d: u64)
        requires
            self.0@.len() + other@.len() <= usize::MAX,
        ensures
            d == spec_delta(self.0@, other@),
    {
        delta(self.0.as_slice(), other)
    }

    /// A copy of the representative's connection sequence.
    pub fn cloned(&self) -> (r: Vec<CTRConnection>)
        ensures
            r@ == self.0@,
    {
        clone_conns(&self.0)
    }
}

impl Clone for SpecieRepr {
    /// A verbatim copy of the representative.
    fn clone(&self) -> (r: Self)
        ensures
            r.0@ == self.0@,
    {
        SpecieRepr(clone_conns(&self.0))
    }
}

/// The left-to-right accumulation of each member's fitness divided by the
/// member count, starting from `acc`.
pub open spec fn fit_fold(ms: Seq<(CTRGenome, u64)>, acc: u64, l: u64) -> u64
    decreases ms.len(),
{
    if ms.len() == 0 {
        acc
    } else {
        fit_fold(ms.drop_first(), add_bits(acc, div_bits(ms[0].1, l)), l)
    }
}

/// The fitness-sharing adjusted fitness of a member list: the mean member
/// fitness, accumulated as each fitness divided by the member count.
pub open spec fn spec_fit_adjusted(ms: Seq<(CTRGenome, u64)>) -> u64 {
    fit_fold(ms, R_ZERO, bits_of_usize(ms.len() as usize))
}

/// A grouping for one generation: a representative connection sequence and
/// the fitness-tagged genomes assigned to it.
#[derive(Debug)]
pub struct Specie {
    pub repr: SpecieRepr,
    pub members: Vec<(CTRGenome, u64)>,
}

impl Specie {
    /// Every member genome is structurally well-formed.
    pub open spec fn wf(self) -> bool {
        forall|i: int| 0 <= i < self.members@.len() ==> (#[trigger] self.members@[i]).0.wf()
    }

    /// The number of members.
    pub fn len(&self) -> (r: usize)
        ensures
            r == self.members@.len(),
    {
        self.members.len()
    }

    /// Whether the species has no members.
    pub fn is_empty(&self) -> (r: bool)
        ensures
            r == (self.members@.len() == 0),
    {
        self.members.len() == 0
    }

    /// The last member in the current order.
    pub fn last(&self) -> (r: Option<&(CTRGenome, u64)>)
        ensures
            match r {
                Some(m) => self.members@.len() > 0 && m == &self.members@[self.members@.len() - 1],
                None => self.members@.len() == 0,
            },
    {
        self.members.last()
    }

    /// A copy of the representative and of the member list.
    pub fn cloned(&self) -> (r: (Vec<CTRConnection>, Vec<(CTRGenome, u64)>))
        ensures
            r.0@ == self.repr.0@,
            r.1@.len() == self.members@.len(),
            forall|i: int|
                0 <= i < self.members@.len() ==> genome_eq(
                    (#[trigger] r.1@[i]).0,
                    self.members@[i].0,
                ) && r.1@[i].1 == self.members@[i].1,
    {
        let repr = self.repr.cloned();
        let mut ms: Vec<(CTRGenome, u64)> = Vec::new();
        let mut i: usize = 0;
        while i < self.members.len()
            invariant
                i <= self.members@.len(),
                ms@.len() == i,
                forall|k: int|
                    0 <= k < i ==> genome_eq((#[trigger] ms@[k]).0, self.members@[k].0)
                        && ms@[k].1 == self.members@[k].1,
            decreases self.members@.len() - i,
        {
            let pair = (self.members[i].0.clone(), self.members[i].1);
            ms.push(pair);
            i += 1;
        }
        (repr, ms)
    }

    /// The adjusted fitness of the species: the mean member fitness,
    /// accumulated member by member.
    pub fn fit_adjusted(&self) -> (r: u64)
        ensures
            r == spec_fit_adjusted(self.members@),
    {
        let l = r_of_usize(self.members.len());
        let mut acc: u64 = R_ZERO;
        let mut i: usize = 0;
        proof {
            assert(self.members@.skip(0) =~= self.members@);
        }
        while i < self.members.len()
            invariant
                i <= self.members@.len(),
                l == bits_of_usize(self.members@.len() as usize),
                fit_fold(self.members@, R_ZERO, bits_of_usize(self.members@.len() as usize))
                    == fit_fold(
                    self.members@.skip(i as int),
                    acc,
                    bits_of_usize(self.members@.len() as usize),
                ),
            decreases self.members@.len() - i,
        {
            proof {
                assert(self.members@.skip(i as int).drop_first() =~= self.members@.skip(i + 1));
                assert(self.members@.skip(i as int)[0] == self.members@[i as int]);
            }
            acc = r_add(acc, r_div(self.members[i].1, l));
            i += 1;
        }
        proof {
            assert(self.members@.skip(i as int) =~= Seq::<(CTRGenome, u64)>::empty());
        }
        acc
    }

    /// Keep the top share of the members in their current order: the member
    /// list is cut to round(p * len) entries. The share must lie in (0, 1];
    /// outside it nothing changes and `OutOfRange` comes back.
    pub fn shrink_top_p(&mut self, p: u64) -> (r: Result<(), EvolutionError>)
        ensures
            final(self).repr.0@ == old(self).repr.0@,
            r is Err <==> (le_bits(p, R_ZERO) || lt_bits(R_ONE, p)),
            r is Err ==> final(self).members@ == old(self).members@ && r == Err::<
                (),
                EvolutionError,
            >(EvolutionError::OutOfRange),
            r is Ok ==> ({
                let keep = usize_of_bits(
                    round_bits(
                        mul_bits(p, bits_of_usize(old(self).members@.len() as usize)),
                    ),
                );
                if keep <= old(self).members@.len() {
                    final(self).members@ == old(self).members@.subrange(0, keep as int)
                } else {
                    final(self).members@ == old(self).members@
                }
            }),
    {
        if r_le(p, R_ZERO) || r_lt(R_ONE, p) {
            return Err(EvolutionError::OutOfRange);
        }
        let keep = r_to_usize(r_round(r_mul(p, r_of_usize(self.members.len()))));
        self.members.truncate(keep);
        Ok(())
    }
}

impl Specie {
    /// Offspring by copy: clone a uniformly drawn member and mutate it,
    /// `size` times over.
    fn reproduce_copy(&self, size: usize, rng: &mut ProbBinding, innogen: &mut InnoGen) -> (r:
        Result<Vec<CTRGenome>, EvolutionError>)
        requires
            self.wf(),
            old(rng).wf(),
            old(innogen).wf(),
            old(innogen).head + 3 * size <= usize::MAX,
        ensures
            final(rng).wf(),
            final(rng).probs == old(rng).probs,
            final(innogen).wf(),
            old(innogen).head <= final(innogen).head <= old(innogen).head + 3 * size,
            r == Err::<Vec<CTRGenome>, EvolutionError>(EvolutionError::TooFewMembers) <==> (size
                > 0 && self.members@.len() == 0),
            r is Err ==> (r == Err::<Vec<CTRGenome>, EvolutionError>(EvolutionError::TooFewMembers)
                || r == Err::<Vec<CTRGenome>, EvolutionError>(EvolutionError::StaleRegistry)),
            size == 0 ==> r is Ok,
            registry_extends(
                old(innogen).seen@,
                old(innogen).head,
                final(innogen).seen@,
                final(innogen).head,
            ),
            members_fresh(old(innogen).seen@, old(innogen).head, self.members@)
                && self.members@.len() > 0 ==> r is Ok,
            r matches Ok(pop) ==> pop@.len() == size && (forall|i: int|
                0 <= i < pop@.len() ==> (#[trigger] pop@[i]).wf()),
    {
        if size == 0 {
            return Ok(Vec::new());
        }
        if self.members.len() == 0 {
            return Err(EvolutionError::TooFewMembers);
        }
        let mut pop: Vec<CTRGenome> = Vec::new();
        while pop.len() < size
            invariant
                self.wf(),
                rng.wf(),
                rng.probs == old(rng).probs,
                innogen.wf(),
                size > 0,
                self.members@.len() > 0,
                pop@.len() <= size,
                old(innogen).head + 3 * size <= usize::MAX,
                old(innogen).head <= innogen.head,
                innogen.head <= old(innogen).head + 3 * pop@.len(),
                registry_extends(
                    old(innogen).seen@,
                    old(innogen).head,
                    innogen.seen@,
                    innogen.head,
                ),
                forall|i: int| 0 <= i < pop@.len() ==> (#[trigger] pop@[i]).wf(),
            decreases size - pop@.len(),
        {
            let idx = rng.below(self.members.len());
            let mut child = self.members[idx].0.clone();
            proof {
                assert(self.members@[idx as int].0.wf());
            }
            let ghost seen_b = innogen.seen@;
            let ghost head_b = innogen.head;
            let ghost child_conns = child.connections@;
            match child.mutate(rng, innogen) {
                Ok(()) => {},
                Err(e) => {
                    proof {
                        lemma_extends_trans(
                            old(innogen).seen@,
                            old(innogen).head,
                            seen_b,
                            head_b,
                            innogen.seen@,
                            innogen.head,
                        );
                        if members_fresh(old(innogen).seen@, old(innogen).head, self.members@) {
                            lemma_fresh_extends(
                                old(innogen).seen@,
                                old(innogen).head,
                                seen_b,
                                head_b,
                                child_conns,
                            );
                            assert(false);
                        }
                    }
                    return Err(e);
                },
            }
            proof {
                lemma_extends_trans(
                    old(innogen).seen@,
                    old(innogen).head,
                    seen_b,
                    head_b,
                    innogen.seen@,
                    innogen.head,
                );
            }
            pop.push(child);
        }
        Ok(pop)
    }

    /// Offspring by crossover: draw two distinct members, cross them under
    /// their fitness order, and mutate the child, `size` times over.
    fn reproduce_crossover(&self, size: usize, rng: &mut ProbBinding, innogen: &mut InnoGen) -> (r:
        Result<Vec<CTRGenome>, EvolutionError>)
        requires
            self.wf(),
            old(rng).wf(),
            old(innogen).wf(),
            old(innogen).head + 3 * size <= usize::MAX,
        ensures
            final(rng).wf(),
            final(rng).probs == old(rng).probs,
            final(innogen).wf(),
            old(innogen).head <= final(innogen).head <= old(innogen).head + 3 * size,
            r == Err::<Vec<CTRGenome>, EvolutionError>(EvolutionError::TooFewMembers) <==> (size
                > 0 && self.members@.len() < 2),
            r is Err ==> (r == Err::<Vec<CTRGenome>, EvolutionError>(EvolutionError::TooFewMembers)
                || r == Err::<Vec<CTRGenome>, EvolutionError>(EvolutionError::StaleRegistry)),
            size == 0 ==> r is Ok,
            registry_extends(
                old(innogen).seen@,
                old(innogen).head,
                final(innogen).seen@,
                final(innogen).head,
            ),
            members_fresh(old(innogen).seen@, old(innogen).head, self.members@)
                && self.members@.len() >= 2 ==> r is Ok,
            r matches Ok(pop) ==> pop@.len() == size && (forall|i: int|
                0 <= i < pop@.len() ==> (#[trigger] pop@[i]).wf()),
    {
        if size == 0 {
            return Ok(Vec::new());
        }
        if self.members.len() < 2 {
            return Err(EvolutionError::TooFewMembers);
        }
        let mut pop: Vec<CTRGenome> = Vec::new();
        while pop.len() < size
            invariant
                self.wf(),
                rng.wf(),
                rng.probs == old(rng).probs,
                innogen.wf(),
                size > 0,
                self.members@.len() >= 2,
                pop@.len() <= size,
                old(innogen).head + 3 * size <= usize::MAX,
                old(innogen).head <= innogen.head,
                innogen.head <= old(innogen).head + 3 * pop@.len(),
                registry_extends(
                    old(innogen).seen@,
                    old(innogen).head,
                    innogen.seen@,
                    innogen.head,
                ),
                forall|i: int| 0 <= i < pop@.len() ==> (#[trigger] pop@[i]).wf(),
            decreases size - pop@.len(),
        {
            let (a, b) = match uniq_2(self.members.len(), rng) {
                Some(pair) => pair,
                None => {
                    proof {
                        assert(false);
                    }
                    (0, 0)
                },
            };
            let ord = fit_cmp(self.members[a].1, self.members[b].1);
            let mut child = self.members[a].0.reproduce_with(&self.members[b].0, ord, rng);
            let ghost seen_b = innogen.seen@;
            let ghost head_b = innogen.head;
            let ghost child_conns = child.connections@;
            match child.mutate(rng, innogen) {
                Ok(()) => {},
                Err(e) => {
                    proof {
                        lemma_extends_trans(
                            old(innogen).seen@,
                            old(innogen).head,
                            seen_b,
                            head_b,
                            innogen.seen@,
                            innogen.head,
                        );
                        if members_fresh(old(innogen).seen@, old(innogen).head, self.members@) {
                            lemma_fresh_extends(
                                old(innogen).seen@,
                                old(innogen).head,
                                seen_b,
                                head_b,
                                self.members@[a as int].0.connections@,
                            );
                            lemma_fresh_extends(
                                old(innogen).seen@,
                                old(innogen).head,
                                seen_b,
                                head_b,
                                self.members@[b as int].0.connections@,
                            );
                            lemma_child_fresh(
                                seen_b,
                                head_b,
                                self.members@[a as int].0.connections@,
                                self.members@[b as int].0.connections@,
                                child_conns,
                                ord,
                            );
                            assert(false);
                        }
                    }
                    return Err(e);
                },
            }
            proof {
                lemma_extends_trans(
                    old(innogen).seen@,
                    old(innogen).head,
                    seen_b,
                    head_b,
                    innogen.seen@,
                    innogen.head,
                );
            }
            pop.push(child);
        }
        Ok(pop)
    }

    /// Reproduce the species into `size` offspring: one verbatim copy of the
    /// fittest member leads, a quarter of the rest are mutated copies (or
    /// all of the rest, for a lone member or a tiny brood), and the
    /// remainder come from crossover of distinct pairs. With no members and
    /// a positive size, `TooFewMembers` comes back.
    pub fn reproduce(&self, size: usize, innogen: &mut InnoGen, rng: &mut ProbBinding) -> (r:
        Result<Vec<CTRGenome>, EvolutionError>)
        requires
            self.wf(),
            old(rng).wf(),
            old(innogen).wf(),
            old(innogen).head + 3 * size <= usize::MAX,
        ensures
            final(rng).wf(),
            final(rng).probs == old(rng).probs,
            final(innogen).wf(),
            old(innogen).head <= final(innogen).head <= old(innogen).head + 3 * size,
            r == Err::<Vec<CTRGenome>, EvolutionError>(EvolutionError::TooFewMembers) <==> (size
                > 0 && self.members@.len() == 0),
            r is Err ==> (r == Err::<Vec<CTRGenome>, EvolutionError>(EvolutionError::TooFewMembers)
                || r == Err::<Vec<CTRGenome>, EvolutionError>(EvolutionError::StaleRegistry)),
            size == 0 ==> r is Ok,
            registry_extends(
                old(innogen).seen@,
                old(innogen).head,
                final(innogen).seen@,
                final(innogen).head,
            ),
            members_fresh(old(innogen).seen@, old(innogen).head, self.members@)
                && self.members@.len() > 0 ==> r is Ok,
            r matches Ok(pop) ==> pop@.len() == size && (forall|i: int|
                0 <= i < pop@.len() ==> (#[trigger] pop@[i]).wf()) && (size > 0 ==> genome_eq(
                pop@[0],
                self.members@[0].0,
            )),
    {
        if size == 0 {
            return Ok(Vec::new());
        }
        if self.members.len() == 0 {
            return Err(EvolutionError::TooFewMembers);
        }
        let mut pop: Vec<CTRGenome> = Vec::new();
        let elite = self.members[0].0.clone();
        proof {
            assert(self.members@[0].0.wf());
        }
        pop.push(elite);
        if size == 1 {
            return Ok(pop);
        }
        let rest = size - 1;
        let quarter = rest / 4;
        let size_copy = if quarter == 0 || self.members.len() == 1 {
            rest
        } else {
            quarter
        };
        let mut copies = match self.reproduce_copy(size_copy, rng, innogen) {
            Ok(v) => v,
            Err(e) => {
                return Err(e);
            },
        };
        pop.append(&mut copies);
        let ghost seen_c = innogen.seen@;
        let ghost head_c = innogen.head;
        let size_crossover = rest - size_copy;
        let mut crossed = match self.reproduce_crossover(size_crossover, rng, innogen) {
            Ok(v) => v,
            Err(e) => {
                proof {
                    lemma_extends_trans(
                        old(innogen).seen@,
                        old(innogen).head,
                        seen_c,
                        head_c,
                        innogen.seen@,
                        innogen.head,
                    );
                    if members_fresh(old(innogen).seen@, old(innogen).head, self.members@) {
                        lemma_members_fresh_extends(
                            old(innogen).seen@,
                            old(innogen).head,
                            seen_c,
                            head_c,
                            self.members@,
                        );
                        assert(false);
                    }
                }
                return Err(e);
            },
        };
        pop.append(&mut crossed);
        proof {
            lemma_extends_trans(
                old(innogen).seen@,
                old(innogen).head,
                seen_c,
                head_c,
                innogen.seen@,
                innogen.head,
            );
        }
        Ok(pop)
    }
}

/// The sum of a sequence of sizes.
pub open spec fn sum_usize(s: Seq<usize>) -> int
    decreases s.len(),
{
    if s.len() == 0 {
        0
    } else {
        sum_usize(s.drop_last()) + s.last()
    }
}

proof fn lemma_sum_usize_update(s: Seq<usize>, i: int, v: usize)
    requires
        0 <= i < s.len(),
    ensures
        sum_usize(s.update(i, v)) == sum_usize(s) - s[i] + v,
    decreases s.len(),
{
    let t = s.update(i, v);
    if i == s.len() - 1 {
        assert(t.drop_last() =~= s.drop_last());
    } else {
        assert(t.drop_last() =~= s.drop_last().update(i, v));
        lemma_sum_usize_update(s.drop_last(), i, v);
        assert(t.last() == s.last());
    }
}

proof fn lemma_sum_usize_push(s: Seq<usize>, v: usize)
    ensures
        sum_usize(s.push(v)) == sum_usize(s) + v,
{
    assert(s.push(v).drop_last() =~= s);
}

/// The left-to-right accumulation of a sequence of fitness values.
pub open spec fn add_fold(fs: Seq<u64>, acc: u64) -> u64
    decreases fs.len(),
{
    if fs.len() == 0 {
        acc
    } else {
        add_fold(fs.drop_first(), add_bits(acc, fs[0]))
    }
}

/// The rounded share of the population a species with adjusted fitness
/// `fit` claims, out of the scaled population and the fitness total.
pub open spec fn spec_alloc_share(fit: u64, scaled: u64, total: u64) -> usize {
    usize_of_bits(round_bits(div_bits(mul_bits(scaled, fit), total)))
}

/// Walking the shares in their sorted order: the budget consumed before
/// position `k`, and whether the walk has already stopped by handing out
/// the residual.
pub open spec fn alloc_state(shares: Seq<usize>, population: usize, k: int) -> (int, bool)
    decreases k,
{
    if k <= 0 {
        (0, false)
    } else {
        let (acc, stopped) = alloc_state(shares, population, k - 1);
        if stopped {
            (acc, true)
        } else if acc + shares[k - 1] < population {
            (acc + shares[k - 1], false)
        } else {
            (population as int, true)
        }
    }
}

/// What the species at sorted position `k` receives: its share while the
/// cumulative budget stays strictly below the population, the residual at
/// the step that would reach it, and nothing afterwards.
pub open spec fn spec_alloc_at(shares: Seq<usize>, population: usize, k: int) -> usize {
    let (acc, stopped) = alloc_state(shares, population, k);
    if stopped {
        0
    } else if acc + shares[k] < population {
        shares[k]
    } else {
        (population - acc) as usize
    }
}

/// A walk order for the allocation: every species index once, arranged so
/// the order keys of their adjusted fitness values never increase.
pub open spec fn spec_alloc_order_ok(fits: Seq<u64>, ord: Seq<int>) -> bool {
    &&& ord.len() == fits.len()
    &&& forall|k: int| 0 <= k < ord.len() ==> 0 <= #[trigger] ord[k] < fits.len()
    &&& forall|a: int, b: int| 0 <= a < b < ord.len() ==> ord[a] != ord[b]
    &&& forall|a: int, b: int|
        0 <= a < b < ord.len() ==> spec_float_key(fits[#[trigger] ord[b]]) <= spec_float_key(
            fits[#[trigger] ord[a]],
        )
}

/// The allocation policy: along some fitness-descending order of the
/// species, each receives the rounded share of the scaled population its
/// adjusted fitness claims out of the fitness total, until the budget would
/// be reached; the species reaching it absorbs the residual and the rest
/// receive nothing.
pub open spec fn spec_alloc_post(
    fits: Seq<u64>,
    population: usize,
    top_p: u64,
    allocs: Seq<usize>,
) -> bool {
    exists|ord: Seq<int>|
        {
            &&& spec_alloc_order_ok(fits, ord)
            &&& ({
                let sorted_fits = Seq::new(ord.len(), |k: int| fits[ord[k]]);
                let total = add_fold(sorted_fits, R_ZERO);
                let scaled = div_bits(bits_of_usize(population), top_p);
                let shares = Seq::new(
                    ord.len(),
                    |k: int| spec_alloc_share(sorted_fits[k], scaled, total),
                );
                forall|k: int|
                    0 <= k < ord.len() ==> allocs[#[trigger] ord[k]] == spec_alloc_at(
                        shares,
                        population,
                        k,
                    )
            })
        }
}

/// The adjusted fitness of each species.
pub open spec fn spec_species_fits(species: Seq<Specie>) -> Seq<u64> {
    Seq::new(species.len(), |i: int| spec_fit_adjusted(species[i].members@))
}

/// Allocate a target population to every species: scale the population by
/// the retained share, sort the species by adjusted fitness, and hand each
/// its rounded part of the scaled budget until the budget runs out; the
/// allocations never sum above the population.
pub fn population_alloc(species: &Vec<Specie>, population: usize, top_p: u64) -> (allocs: Vec<
    usize,
>)
    ensures
        allocs@.len() == species@.len(),
        sum_usize(allocs@) <= population,
        spec_alloc_post(spec_species_fits(species@), population, top_p, allocs@),
{
    let ghost fits = spec_species_fits(species@);
    let n = species.len();
    let mut pairs: Vec<(usize, u64)> = Vec::new();
    let mut i: usize = 0;
    while i < n
        invariant
            i <= n == species@.len(),
            pairs@.len() == i,
            fits == spec_species_fits(species@),
            forall|k: int| 0 <= k < i ==> #[trigger] pairs@[k] == (k as usize, fits[k]),
        decreases n - i,
    {
        let f = species[i].fit_adjusted();
        pairs.push((i, f));
        i += 1;
    }
    let ghost orig_pairs = pairs@;
    proof {
        assert(orig_pairs.no_duplicates()) by {
            assert forall|a: int, b: int|
                0 <= a < b < orig_pairs.len() implies orig_pairs[a] != orig_pairs[b] by {
                assert(orig_pairs[a].0 == a && orig_pairs[b].0 == b);
            }
        }
        orig_pairs.lemma_multiset_has_no_duplicates();
    }
    sort_by_fit_desc(&mut pairs);
    proof {
        assert forall|k: int| 0 <= k < pairs@.len() implies (#[trigger] pairs@[k]).0 < n
            && pairs@[k].1 == fits[pairs@[k].0 as int] by {
            assert(pairs@.contains(pairs@[k]));
            assert(pairs@.to_multiset().count(pairs@[k]) > 0);
            assert(orig_pairs.to_multiset().count(pairs@[k]) > 0);
            assert(orig_pairs.contains(pairs@[k]));
            let w = choose|w: int| 0 <= w < orig_pairs.len() && orig_pairs[w] == pairs@[k];
            assert(orig_pairs[w] == (w as usize, fits[w]));
        }
        pairs@.lemma_multiset_has_no_duplicates_conv();
        assert forall|a: int, b: int|
            0 <= a < b < pairs@.len() implies (#[trigger] pairs@[a]).0 != (
        #[trigger] pairs@[b]).0 by {
            if pairs@[a].0 == pairs@[b].0 {
                assert(pairs@[a].1 == fits[pairs@[a].0 as int]);
                assert(pairs@[b].1 == fits[pairs@[b].0 as int]);
                assert(pairs@[a] == pairs@[b]);
            }
        }
    }
    let ghost ord = Seq::new(pairs@.len(), |k: int| pairs@[k].0 as int);
    let ghost sorted_fits = Seq::new(ord.len(), |k: int| fits[ord[k]]);
    proof {
        assert forall|k: int| 0 <= k < ord.len() implies sorted_fits[k] == pairs@[k].1 by {
            assert(ord[k] == pairs@[k].0 as int);
        }
    }
    let mut total: u64 = R_ZERO;
    let mut t: usize = 0;
    proof {
        assert(sorted_fits.skip(0) =~= sorted_fits);
    }
    while t < pairs.len()
        invariant
            t <= pairs@.len(),
            sorted_fits.len() == pairs@.len(),
            forall|k: int| 0 <= k < pairs@.len() ==> sorted_fits[k] == (#[trigger] pairs@[k]).1,
            add_fold(sorted_fits, R_ZERO) == add_fold(sorted_fits.skip(t as int), total),
        decreases pairs@.len() - t,
    {
        proof {
            assert(sorted_fits.skip(t as int).drop_first() =~= sorted_fits.skip(t + 1));
            assert(sorted_fits.skip(t as int)[0] == sorted_fits[t as int]);
        }
        total = r_add(total, pairs[t].1);
        t += 1;
    }
    proof {
        assert(sorted_fits.skip(t as int) =~= Seq::<u64>::empty());
    }
    let scaled = r_div(r_of_usize(population), top_p);
    let ghost shares = Seq::new(ord.len(), |k: int| spec_alloc_share(sorted_fits[k], scaled, total));
    let mut allocs: Vec<usize> = Vec::new();
    let mut z: usize = 0;
    while z < n
        invariant
            z <= n,
            allocs@.len() == z,
            sum_usize(allocs@) == 0,
            forall|j: int| 0 <= j < z ==> allocs@[j] == 0,
        decreases n - z,
    {
        proof {
            lemma_sum_usize_push(allocs@, 0);
        }
        allocs.push(0);
        z += 1;
    }
    let mut acc: usize = 0;
    let mut stopped: bool = false;
    let mut k: usize = 0;
    while k < pairs.len()
        invariant
            k <= pairs@.len() == n,
            allocs@.len() == n,
            n == species@.len(),
            acc <= population,
            shares.len() == n,
            ord.len() == n,
            forall|j: int| 0 <= j < n ==> ord[j] == (#[trigger] pairs@[j]).0 as int,
            forall|j: int| 0 <= j < n ==> (#[trigger] pairs@[j]).0 < n,
            forall|a: int, b: int|
                0 <= a < b < n ==> (#[trigger] pairs@[a]).0 != (#[trigger] pairs@[b]).0,
            forall|j: int|
                0 <= j < n ==> shares[j] == spec_alloc_share(
                    (#[trigger] pairs@[j]).1,
                    scaled,
                    total,
                ),
            (acc as int, stopped) == alloc_state(shares, population, k as int),
            forall|j: int|
                0 <= j < k ==> allocs@[(#[trigger] pairs@[j]).0 as int] == spec_alloc_at(
                    shares,
                    population,
                    j,
                ),
            forall|j: int| k <= j < n ==> allocs@[(#[trigger] pairs@[j]).0 as int] == 0,
            sum_usize(allocs@) == acc,
        decreases pairs@.len() - k,
    {
        if !stopped {
            let share = r_to_usize(r_round(r_div(r_mul(scaled, pairs[k].1), total)));
            let idx = pairs[k].0;
            let ghost allocs_pre = allocs@;
            if share < population - acc {
                allocs.set(idx, share);
                proof {
                    lemma_sum_usize_update(allocs_pre, idx as int, share);
                }
                acc = acc + share;
            } else {
                let residue = population - acc;
                allocs.set(idx, residue);
                proof {
                    lemma_sum_usize_update(allocs_pre, idx as int, residue);
                }
                acc = population;
                stopped = true;
            }
        }
        k += 1;
    }
    proof {
        assert(spec_alloc_order_ok(fits, ord)) by {
            assert forall|a: int, b: int| 0 <= a < b < ord.len() implies ord[a] != ord[b] by {
                assert(pairs@[a].0 != pairs@[b].0);
            }
            assert forall|a: int, b: int|
                0 <= a < b < ord.len() implies spec_float_key(fits[#[trigger] ord[b]])
                <= spec_float_key(fits[#[trigger] ord[a]]) by {
                assert(fits[ord[b]] == pairs@[b].1 && fits[ord[a]] == pairs@[a].1);
            }
        }
        assert forall|k0: int|
            0 <= k0 < ord.len() implies allocs@[#[trigger] ord[k0]] == spec_alloc_at(
            shares,
            population,
            k0,
        ) by {
            assert(allocs@[pairs@[k0].0 as int] == spec_alloc_at(shares, population, k0));
        }
        assert(spec_alloc_post(fits, population, top_p, allocs@));
    }
    allocs
}

proof fn lemma_sum_usize_nonneg(s: Seq<usize>)
    ensures
        sum_usize(s) >= 0,
    decreases s.len(),
{
    if s.len() > 0 {
        lemma_sum_usize_nonneg(s.drop_last());
    }
}

proof fn lemma_sum_usize_take_le(s: Seq<usize>, k: int)
    requires
        0 <= k <= s.len(),
    ensures
        sum_usize(s.take(k)) <= sum_usize(s),
        sum_usize(s.take(k)) >= 0,
    decreases s.len() - k,
{
    lemma_sum_usize_nonneg(s.take(k));
    if k == s.len() {
        assert(s.take(k) =~= s);
    } else {
        assert(s.take(k + 1).drop_last() =~= s.take(k));
        assert(s.take(k + 1).last() == s[k]);
        lemma_sum_usize_take_le(s, k + 1);
    }
}

/// A fresh population: `population` genomes wired for the given input and
/// output sizes, each opened with one connection along a random open path,
/// under one shared registry starting at id 0. Returns the population and
/// the registry head that the first generation should continue from.
pub fn population_init(
    sensory: usize,
    action: usize,
    population: usize,
    rng: &mut ProbBinding,
) -> (r: (Vec<CTRGenome>, usize))
    requires
        old(rng).wf(),
        sensory + action + 1 <= usize::MAX,
        (sensory + 1) * action <= usize::MAX,
    ensures
        final(rng).wf(),
        final(rng).probs == old(rng).probs,
        r.0@.len() == population,
        forall|i: int| 0 <= i < population ==> (#[trigger] r.0@[i]).wf(),
        forall|i: int|
            0 <= i < population ==> (#[trigger] r.0@[i]).sensory == sensory && r.0@[i].action
                == action && r.0@[i].connections@.len() == 1 && r.0@[i].nodes@.len() == sensory
                + action + 1,
        forall|i: int|
            0 <= i < population ==> (#[trigger] r.0@[i]).connections@[0].weight == R_ONE
                && r.0@[i].connections@[0].enabled && r.0@[i].connections@[0].inno < r.1,
        r.1 <= population,
{
    let mut v: Vec<CTRGenome> = Vec::new();
    let mut inext = InnoGen::new(0);
    let mut i: usize = 0;
    while i < population
        invariant
            rng.wf(),
            rng.probs == old(rng).probs,
            inext.wf(),
            i <= population,
            v@.len() == i,
            inext.head <= i,
            sensory + action + 1 <= usize::MAX,
            (sensory + 1) * action <= usize::MAX,
            forall|k: int| 0 <= k < i ==> (#[trigger] v@[k]).wf(),
            forall|k: int|
                0 <= k < i ==> (#[trigger] v@[k]).sensory == sensory && v@[k].action == action
                    && v@[k].connections@.len() == 1 && v@[k].nodes@.len() == sensory + action
                    + 1,
            forall|k: int|
                0 <= k < i ==> (#[trigger] v@[k]).connections@[0].weight == R_ONE
                    && v@[k].connections@[0].enabled && v@[k].connections@[0].inno < inext.head,
        decreases population - i,
    {
        let (mut g, _) = CTRGenome::new(sensory, action);
        let ghost g0 = g;
        match g.mutate_connection(rng, &mut inext) {
            Ok(()) => {},
            Err(e) => {
                proof {
                    if e == EvolutionError::Saturated {
                        assert(crate::genome::recurrent::has_path(g0.connections@, 0, 0));
                    }
                    assert(false);
                }
            },
        }
        v.push(g);
        i += 1;
    }
    let head = inext.head;
    (v, head)
}

/// Reproduce a speciated population into the next generation's genomes:
/// allocate each species its share of the population and reproduce it,
/// under one registry starting at `inno_head`. Returns the offspring and
/// the head the registry reached.
pub fn population_reproduce(
    species: &Vec<Specie>,
    population: usize,
    top_p: u64,
    inno_head: usize,
    rng: &mut ProbBinding,
) -> (r: Result<(Vec<CTRGenome>, usize), EvolutionError>)
    requires
        old(rng).wf(),
        forall|si: int| 0 <= si < species@.len() ==> (#[trigger] species@[si]).wf(),
        forall|si: int| 0 <= si < species@.len() ==> (#[trigger] species@[si]).members@.len() > 0,
        inno_head + 3 * population <= usize::MAX,
    ensures
        final(rng).wf(),
        final(rng).probs == old(rng).probs,
        r is Err ==> r == Err::<(Vec<CTRGenome>, usize), EvolutionError>(
            EvolutionError::StaleRegistry,
        ),
        (forall|si: int|
            0 <= si < species@.len() ==> members_fresh(
                Map::<u128, usize>::empty(),
                inno_head,
                (#[trigger] species@[si]).members@,
            )) ==> r is Ok,
        r matches Ok(pair) ==> ({
            &&& pair.0@.len() <= population
            &&& forall|i: int| 0 <= i < pair.0@.len() ==> (#[trigger] pair.0@[i]).wf()
            &&& inno_head <= pair.1 <= inno_head + 3 * population
            &&& exists|allocs: Seq<usize>|
                {
                    &&& allocs.len() == species@.len()
                    &&& sum_usize(allocs) <= population
                    &&& spec_alloc_post(spec_species_fits(species@), population, top_p, allocs)
                    &&& pair.0@.len() == sum_usize(allocs)
                    &&& forall|si: int|
                        0 <= si < species@.len() && #[trigger] allocs[si] > 0 ==> 0 <= sum_usize(
                            allocs.take(si),
                        ) < pair.0@.len() && genome_eq(
                            pair.0@[sum_usize(allocs.take(si))],
                            species@[si].members@[0].0,
                        )
                }
        }),
{
    let allocs = population_alloc(species, population, top_p);
    let mut innogen = InnoGen::new(inno_head);
    let mut pop: Vec<CTRGenome> = Vec::new();
    let mut si: usize = 0;
    proof {
        assert(allocs@.take(0) =~= Seq::<usize>::empty());
    }
    while si < species.len()
        invariant
            rng.wf(),
            rng.probs == old(rng).probs,
            innogen.wf(),
            si <= species@.len(),
            allocs@.len() == species@.len(),
            sum_usize(allocs@) <= population,
            inno_head + 3 * population <= usize::MAX,
            forall|k: int| 0 <= k < species@.len() ==> (#[trigger] species@[k]).wf(),
            forall|k: int| 0 <= k < species@.len() ==> (#[trigger] species@[k]).members@.len() > 0,
            pop@.len() == sum_usize(allocs@.take(si as int)),
            inno_head <= innogen.head,
            innogen.head <= inno_head + 3 * sum_usize(allocs@.take(si as int)),
            registry_extends(Map::<u128, usize>::empty(), inno_head, innogen.seen@, innogen.head),
            forall|i: int| 0 <= i < pop@.len() ==> (#[trigger] pop@[i]).wf(),
            forall|k: int|
                0 <= k < si && #[trigger] allocs@[k] > 0 ==> 0 <= sum_usize(allocs@.take(k))
                    < pop@.len() && genome_eq(
                    pop@[sum_usize(allocs@.take(k))],
                    species@[k].members@[0].0,
                ),
        decreases species@.len() - si,
    {
        proof {
            lemma_sum_usize_take_le(allocs@, si as int);
            lemma_sum_usize_take_le(allocs@, si + 1);
            assert(allocs@.take(si + 1).drop_last() =~= allocs@.take(si as int));
            assert(allocs@.take(si + 1).last() == allocs@[si as int]);
        }
        let size = allocs[si];
        let ghost seen_c = innogen.seen@;
        let ghost head_c = innogen.head;
        let mut block = match species[si].reproduce(size, &mut innogen, rng) {
            Ok(v) => v,
            Err(e) => {
                proof {
                    assert(e != EvolutionError::TooFewMembers);
                    lemma_extends_trans(
                        Map::<u128, usize>::empty(),
                        inno_head,
                        seen_c,
                        head_c,
                        innogen.seen@,
                        innogen.head,
                    );
                    if forall|k: int|
                        0 <= k < species@.len() ==> members_fresh(
                            Map::<u128, usize>::empty(),
                            inno_head,
                            (#[trigger] species@[k]).members@,
                        ) {
                        lemma_members_fresh_extends(
                            Map::<u128, usize>::empty(),
                            inno_head,
                            seen_c,
                            head_c,
                            species@[si as int].members@,
                        );
                        assert(false);
                    }
                }
                return Err(e);
            },
        };
        let ghost start = pop@.len() as int;
        let ghost block0 = block@;
        let ghost pop_pre = pop@;
        pop.append(&mut block);
        proof {
            lemma_extends_trans(
                Map::<u128, usize>::empty(),
                inno_head,
                seen_c,
                head_c,
                innogen.seen@,
                innogen.head,
            );
            assert forall|k: int|
                0 <= k < si + 1 && #[trigger] allocs@[k] > 0 implies 0 <= sum_usize(
                allocs@.take(k),
            ) < pop@.len() && genome_eq(
                pop@[sum_usize(allocs@.take(k))],
                species@[k].members@[0].0,
            ) by {
                if k < si {
                    assert(pop@[sum_usize(allocs@.take(k))] == pop_pre[sum_usize(
                        allocs@.take(k),
                    )]);
                } else {
                    assert(start == sum_usize(allocs@.take(k)));
                    assert(pop@[start] == block0[0]);
                }
            }
        }
        si += 1;
    }
    proof {
        assert(allocs@.take(species@.len() as int) =~= allocs@);
    }
    let head = innogen.head;
    Ok((pop, head))
}

/// The members of every species, pooled into one multiset.
pub open spec fn members_ms(sp: Seq<Specie>) -> Multiset<(CTRGenome, u64)>
    decreases sp.len(),
{
    if sp.len() == 0 {
        Multiset::<(CTRGenome, u64)>::empty()
    } else {
        members_ms(sp.drop_last()).add(sp.last().members@.to_multiset())
    }
}

proof fn lemma_members_ms_push(sp: Seq<Specie>, s: Specie)
    ensures
        members_ms(sp.push(s)) == members_ms(sp).add(s.members@.to_multiset()),
{
    assert(sp.push(s).drop_last() =~= sp);
    assert(sp.push(s).last() == s);
}

proof fn lemma_members_ms_update(sp: Seq<Specie>, k: int, s2: Specie)
    requires
        0 <= k < sp.len(),
    ensures
        forall|e: (CTRGenome, u64)|
            members_ms(sp.update(k, s2)).count(e) + sp[k].members@.to_multiset().count(e)
                == members_ms(sp).count(e) + s2.members@.to_multiset().count(e),
    decreases sp.len(),
{
    broadcast use vstd::multiset::group_multiset_axioms;

    let t = sp.update(k, s2);
    if k == sp.len() - 1 {
        assert(t.drop_last() =~= sp.drop_last());
        assert(t.last() == s2);
        assert(members_ms(t) == members_ms(t.drop_last()).add(s2.members@.to_multiset()));
        assert(members_ms(sp) == members_ms(sp.drop_last()).add(sp[k].members@.to_multiset()));
    } else {
        assert(t.drop_last() =~= sp.drop_last().update(k, s2));
        assert(t.last() == sp.last());
        lemma_members_ms_update(sp.drop_last(), k, s2);
        assert(sp.drop_last()[k] == sp[k]);
        assert(members_ms(t) == members_ms(t.drop_last()).add(sp.last().members@.to_multiset()));
        assert(members_ms(sp) == members_ms(sp.drop_last()).add(
            sp.last().members@.to_multiset(),
        ));
        assert forall|e: (CTRGenome, u64)|
            members_ms(t).count(e) + sp[k].members@.to_multiset().count(e) == members_ms(
            sp,
        ).count(e) + s2.members@.to_multiset().count(e) by {
            assert(members_ms(sp.drop_last().update(k, s2)).count(e)
                + sp.drop_last()[k].members@.to_multiset().count(e) == members_ms(
                sp.drop_last(),
            ).count(e) + s2.members@.to_multiset().count(e));
        }
    }
}

/// The first species whose representative lies within the compatibility
/// threshold of the connection sequence, scanning in order.
fn first_matching_specie(sp: &Vec<Specie>, conns: &Vec<CTRConnection>) -> (r: Option<usize>)
    requires
        forall|k: int|
            0 <= k < sp@.len() ==> (#[trigger] sp@[k]).repr.0@.len() + conns@.len() <= usize::MAX,
    ensures
        match r {
            Some(ji) => ji < sp@.len() && lt_bits(
                spec_delta(sp@[ji as int].repr.0@, conns@),
                SPECIE_THRESHOLD,
            ) && forall|j: int|
                0 <= j < ji ==> !lt_bits(
                    spec_delta((#[trigger] sp@[j]).repr.0@, conns@),
                    SPECIE_THRESHOLD,
                ),
            None => forall|j: int|
                0 <= j < sp@.len() ==> !lt_bits(
                    spec_delta((#[trigger] sp@[j]).repr.0@, conns@),
                    SPECIE_THRESHOLD,
                ),
        },
{
    let mut ji: usize = 0;
    while ji < sp.len()
        invariant
            ji <= sp@.len(),
            forall|k: int|
                0 <= k < sp@.len() ==> (#[trigger] sp@[k]).repr.0@.len() + conns@.len()
                    <= usize::MAX,
            forall|j: int|
                0 <= j < ji ==> !lt_bits(
                    spec_delta((#[trigger] sp@[j]).repr.0@, conns@),
                    SPECIE_THRESHOLD,
                ),
        decreases sp@.len() - ji,
    {
        let d = sp[ji].repr.delta(conns.as_slice());
        if r_lt(d, SPECIE_THRESHOLD) {
            return Some(ji);
        }
        ji += 1;
    }
    None
}

/// Partition fitness-tagged genomes into species, first match wins: each
/// genome joins the first species in order whose representative lies within
/// the compatibility threshold, and founds a new species (with a copy of
/// its connections as representative) when none does. Each species' members
/// end up ordered by descending fitness.
pub fn speciate(genomes: Vec<(CTRGenome, u64)>) -> (sp: Vec<Specie>)
    requires
        forall|i: int| 0 <= i < genomes@.len() ==> (#[trigger] genomes@[i]).0.wf(),
        forall|i: int| 0 <= i < genomes@.len() ==> !spec_is_nan((#[trigger] genomes@[i]).1),
        forall|i: int, j: int|
            #![trigger genomes@[i], genomes@[j]]
            0 <= i < genomes@.len() && 0 <= j < genomes@.len() ==> genomes@[i].0.connections@.len()
                + genomes@[j].0.connections@.len() <= usize::MAX,
    ensures
        members_ms(sp@) == genomes@.to_multiset(),
        forall|k: int| 0 <= k < sp@.len() ==> (#[trigger] sp@[k]).members@.len() > 0,
        forall|k: int| 0 <= k < sp@.len() ==> (#[trigger] sp@[k]).wf(),
        forall|k: int| 0 <= k < sp@.len() ==> sorted_by_inno((#[trigger] sp@[k]).repr.0@),
        forall|k: int, mi: int|
            #![trigger sp@[k].members@[mi]]
            0 <= k < sp@.len() && 0 <= mi < sp@[k].members@.len() ==> (lt_bits(
                spec_delta(sp@[k].repr.0@, sp@[k].members@[mi].0.connections@),
                SPECIE_THRESHOLD,
            ) || sp@[k].repr.0@ == sp@[k].members@[mi].0.connections@),
        forall|k: int, mi: int, j: int|
            #![trigger sp@[j], sp@[k].members@[mi]]
            0 <= k < sp@.len() && 0 <= mi < sp@[k].members@.len() && 0 <= j < k ==> !lt_bits(
                spec_delta(sp@[j].repr.0@, sp@[k].members@[mi].0.connections@),
                SPECIE_THRESHOLD,
            ),
        forall|k: int, a: int, b: int|
            #![trigger sp@[k].members@[a], sp@[k].members@[b]]
            0 <= k < sp@.len() && 0 <= a < b < sp@[k].members@.len() ==> spec_float_key(
                sp@[k].members@[b].1,
            ) <= spec_float_key(sp@[k].members@[a].1),
{
    let ghost genomes0 = genomes@;
    let mut pool = genomes;
    let total_in = pool.len();
    proof {
        assert(genomes0.len() == total_in);
    }
    let mut sp: Vec<Specie> = Vec::new();
    let mut pi: usize = 0;
    proof {
        assert(pool@ =~= genomes0.skip(0));
        lemma_empty_multiset(Seq::<Specie>::empty().map_values(|x: Specie| x));
        assert(members_ms(sp@).add(pool@.to_multiset()) =~= genomes0.to_multiset());
    }
    while pool.len() > 0
        invariant
            pi + pool@.len() == genomes0.len(),
            genomes0.len() <= usize::MAX,
            pool@ == genomes0.skip(pi as int),
            forall|i: int| 0 <= i < genomes0.len() ==> (#[trigger] genomes0[i]).0.wf(),
            forall|i: int, j: int|
                #![trigger genomes0[i], genomes0[j]]
                0 <= i < genomes0.len() && 0 <= j < genomes0.len() ==> genomes0[i].0.connections@.len()
                    + genomes0[j].0.connections@.len() <= usize::MAX,
            members_ms(sp@).add(pool@.to_multiset()) == genomes0.to_multiset(),
            forall|k: int| 0 <= k < sp@.len() ==> (#[trigger] sp@[k]).members@.len() > 0,
            forall|k: int| 0 <= k < sp@.len() ==> (#[trigger] sp@[k]).wf(),
            forall|k: int|
                0 <= k < sp@.len() ==> (#[trigger] sp@[k]).repr.0@
                    == sp@[k].members@[0].0.connections@,
            forall|k: int| 0 <= k < sp@.len() ==> sorted_by_inno((#[trigger] sp@[k]).repr.0@),
            forall|k: int|
                0 <= k < sp@.len() ==> exists|ii: int|
                    0 <= ii < genomes0.len() && (#[trigger] sp@[k]).repr.0@
                        == genomes0[ii].0.connections@,
            forall|k: int, mi: int|
                #![trigger sp@[k].members@[mi]]
                0 <= k < sp@.len() && 0 <= mi < sp@[k].members@.len() ==> (lt_bits(
                    spec_delta(sp@[k].repr.0@, sp@[k].members@[mi].0.connections@),
                    SPECIE_THRESHOLD,
                ) || sp@[k].repr.0@ == sp@[k].members@[mi].0.connections@),
            forall|k: int, mi: int, j: int|
                #![trigger sp@[j], sp@[k].members@[mi]]
                0 <= k < sp@.len() && 0 <= mi < sp@[k].members@.len() && 0 <= j < k ==> !lt_bits(
                    spec_delta(sp@[j].repr.0@, sp@[k].members@[mi].0.connections@),
                    SPECIE_THRESHOLD,
                ),
        decreases pool@.len(),
    {
        let ghost pool_pre = pool@;
        let pair = pool.remove(0);
        proof {
            assert(pool_pre[0] == genomes0[pi as int]);
            assert(pool@ =~= genomes0.skip(pi + 1));
            assert(pool_pre.drop_first() =~= pool@);
            assert(pool_pre =~= pool@.insert(0, pair));
            assert(pool_pre.to_multiset() =~= pool@.to_multiset().insert(pair)) by {
                assert(pool@.insert(0, pair) =~= seq![pair] + pool@);
                assert(seq![pair] =~= Seq::<(CTRGenome, u64)>::empty().push(pair));
                lemma_empty_multiset(Seq::<(CTRGenome, u64)>::empty());
                vstd::seq_lib::lemma_multiset_commutative(seq![pair], pool@);
                assert(seq![pair].to_multiset() =~= Multiset::<(CTRGenome, u64)>::empty().insert(
                    pair,
                ));
                assert(pool_pre.to_multiset() =~= seq![pair].to_multiset().add(pool@.to_multiset()));
            }
            assert forall|k: int|
                0 <= k < sp@.len() implies (#[trigger] sp@[k]).repr.0@.len()
                + pair.0.connections@.len() <= usize::MAX by {
                let ii = choose|ii: int|
                    0 <= ii < genomes0.len() && sp@[k].repr.0@ == genomes0[ii].0.connections@;
                assert(genomes0[ii].0.connections@.len() + genomes0[pi as int].0.connections@.len()
                    <= usize::MAX);
            }
        }
        let matched = first_matching_specie(&sp, &pair.0.connections);
        let ghost sp_pre = sp@;
        match matched {
            Some(ji) => {
                let mut s = sp.remove(ji);
                let ghost s_pre = s;
                s.members.push(pair);
                sp.insert(ji, s);
                proof {
                    assert(sp@ =~= sp_pre.update(ji as int, sp@[ji as int]));
                    let s_new = sp@[ji as int];
                    assert(s_new.members@ == s_pre.members@.push(pair));
                    assert(s_new.repr.0@ == s_pre.repr.0@);
                    lemma_members_ms_update(sp_pre, ji as int, s_new);
                    assert forall|e: (CTRGenome, u64)|
                        members_ms(sp@).add(pool@.to_multiset()).count(e)
                            == genomes0.to_multiset().count(e) by {
                        broadcast use vstd::multiset::group_multiset_axioms;

                        assert(s_new.members@.to_multiset() =~= s_pre.members@.to_multiset().insert(
                            pair,
                        ));
                        assert(members_ms(sp_pre).add(pool_pre.to_multiset()).count(e)
                            == genomes0.to_multiset().count(e));
                    }
                    assert(members_ms(sp@).add(pool@.to_multiset()) =~= genomes0.to_multiset());
                }
            },
            None => {
                let repr = SpecieRepr(clone_conns(&pair.0.connections));
                let mut mv: Vec<(CTRGenome, u64)> = Vec::new();
                mv.push(pair);
                let ghost founder = mv@[0];
                sp.push(Specie { repr, members: mv });
                proof {
                    let s_new = sp@[sp@.len() - 1];
                    assert(sp@ =~= sp_pre.push(s_new));
                    lemma_members_ms_push(sp_pre, s_new);
                    assert(s_new.members@ =~= Seq::<(CTRGenome, u64)>::empty().push(founder));
                    lemma_empty_multiset(Seq::<(CTRGenome, u64)>::empty());
                    assert forall|e: (CTRGenome, u64)|
                        members_ms(sp@).add(pool@.to_multiset()).count(e)
                            == genomes0.to_multiset().count(e) by {
                        broadcast use vstd::multiset::group_multiset_axioms;

                        assert(s_new.members@.to_multiset() =~= Multiset::<
                            (CTRGenome, u64),
                        >::empty().insert(founder));
                        assert(members_ms(sp_pre).add(pool_pre.to_multiset()).count(e)
                            == genomes0.to_multiset().count(e));
                    }
                    assert(members_ms(sp@).add(pool@.to_multiset()) =~= genomes0.to_multiset());
                }
            },
        }
        pi += 1;
    }
    proof {
        lemma_empty_multiset(pool@);
        assert forall|e: (CTRGenome, u64)|
            members_ms(sp@).count(e) == genomes0.to_multiset().count(e) by {
            broadcast use vstd::multiset::group_multiset_axioms;

            assert(members_ms(sp@).add(pool@.to_multiset()).count(e) == genomes0.to_multiset().count(
                e,
            ));
        }
        assert(members_ms(sp@) =~= genomes0.to_multiset());
    }
    let n_sp = sp.len();
    let mut k: usize = 0;
    while k < n_sp
        invariant
            k <= n_sp == sp@.len(),
            members_ms(sp@) == genomes0.to_multiset(),
            forall|k0: int| 0 <= k0 < sp@.len() ==> (#[trigger] sp@[k0]).members@.len() > 0,
            forall|k0: int| 0 <= k0 < sp@.len() ==> (#[trigger] sp@[k0]).wf(),
            forall|k0: int| 0 <= k0 < sp@.len() ==> sorted_by_inno((#[trigger] sp@[k0]).repr.0@),
            forall|k0: int, mi: int|
                #![trigger sp@[k0].members@[mi]]
                0 <= k0 < sp@.len() && 0 <= mi < sp@[k0].members@.len() ==> (lt_bits(
                    spec_delta(sp@[k0].repr.0@, sp@[k0].members@[mi].0.connections@),
                    SPECIE_THRESHOLD,
                ) || sp@[k0].repr.0@ == sp@[k0].members@[mi].0.connections@),
            forall|k0: int, mi: int, j: int|
                #![trigger sp@[j], sp@[k0].members@[mi]]
                0 <= k0 < sp@.len() && 0 <= mi < sp@[k0].members@.len() && 0 <= j < k0 ==> !lt_bits(
                    spec_delta(sp@[j].repr.0@, sp@[k0].members@[mi].0.connections@),
                    SPECIE_THRESHOLD,
                ),
            forall|k0: int, a: int, b: int|
                #![trigger sp@[k0].members@[a], sp@[k0].members@[b]]
                0 <= k0 < k && 0 <= a < b < sp@[k0].members@.len() ==> spec_float_key(
                    sp@[k0].members@[b].1,
                ) <= spec_float_key(sp@[k0].members@[a].1),
        decreases n_sp - k,
    {
        let ghost sp_pre = sp@;
        let mut s = sp.remove(k);
        let ghost s_pre = s;
        sort_by_fit_desc(&mut s.members);
        let ghost s_new_members = s.members@;
        sp.insert(k, s);
        proof {
            broadcast use vstd::multiset::group_multiset_axioms;

            assert(sp@ =~= sp_pre.update(k as int, sp@[k as int]));
            let s_new = sp@[k as int];
            assert(s_new.members@ == s_new_members);
            assert(s_new.members@.to_multiset() == s_pre.members@.to_multiset());
            assert(s_new.repr.0@ == s_pre.repr.0@);
            lemma_members_ms_update(sp_pre, k as int, s_new);
            assert forall|e: (CTRGenome, u64)|
                members_ms(sp@).count(e) == genomes0.to_multiset().count(e) by {
                assert(members_ms(sp_pre).count(e) == genomes0.to_multiset().count(e));
            }
            assert(members_ms(sp@) =~= genomes0.to_multiset());
            assert forall|mi: int|
                0 <= mi < s_new.members@.len() implies ((#[trigger] s_new.members@[mi]).0.wf()
                && (lt_bits(
                spec_delta(s_new.repr.0@, s_new.members@[mi].0.connections@),
                SPECIE_THRESHOLD,
            ) || s_new.repr.0@ == s_new.members@[mi].0.connections@) && (forall|j: int|
                0 <= j < k ==> !lt_bits(
                    spec_delta((#[trigger] sp@[j]).repr.0@, s_new.members@[mi].0.connections@),
                    SPECIE_THRESHOLD,
                ))) by {
                let x = s_new.members@[mi];
                assert(s_new.members@.contains(x));
                assert(s_new.members@.to_multiset().count(x) > 0);
                assert(s_pre.members@.to_multiset().count(x) > 0);
                assert(s_pre.members@.contains(x));
                let w = choose|w: int| 0 <= w < s_pre.members@.len() && s_pre.members@[w] == x;
                assert(sp_pre[k as int].members@[w] == x);
                assert forall|j: int| 0 <= j < k implies !lt_bits(
                    spec_delta((#[trigger] sp@[j]).repr.0@, x.0.connections@),
                    SPECIE_THRESHOLD,
                ) by {
                    assert(sp_pre[j] == sp@[j]);
                    assert(!lt_bits(
                        spec_delta(sp_pre[j].repr.0@, sp_pre[k as int].members@[w].0.connections@),
                        SPECIE_THRESHOLD,
                    ));
                }
            }
            assert forall|k0: int, mi: int, j: int|
                #![trigger sp@[j], sp@[k0].members@[mi]]
                0 <= k0 < sp@.len() && 0 <= mi < sp@[k0].members@.len() && 0 <= j < k0
                implies !lt_bits(
                spec_delta(sp@[j].repr.0@, sp@[k0].members@[mi].0.connections@),
                SPECIE_THRESHOLD,
            ) by {
                if k0 != k as int && j != k as int {
                    assert(sp_pre[k0].members@[mi] == sp@[k0].members@[mi]);
                    assert(sp_pre[j] == sp@[j]);
                } else if k0 == k as int {
                    assert(0 <= j < k as int);
                } else {
                    assert(j == k as int && k0 > k as int);
                    assert(sp@[j].repr.0@ == sp_pre[j].repr.0@);
                    assert(sp_pre[k0].members@[mi] == sp@[k0].members@[mi]);
                }
            }
        }
        k += 1;
    }
    sp
}

/// Bisecting a connection under a generation's registry hands out two ids
/// that differ from each other and from the bisected connection's own id,
/// whenever the registry was set up above that id: its head and every id it
/// has on record lie strictly above it.
pub proof fn lemma_bisection_ids_distinct(
    seen: Map<u128, usize>,
    head: usize,
    c_inno: usize,
    k1: u128,
    k2: u128,
)
    requires
        k1 != k2,
        head < usize::MAX,
        c_inno < head,
        forall|k: u128| #[trigger] seen.contains_key(k) ==> seen[k] < head,
        forall|k1x: u128, k2x: u128|
            #![trigger seen[k1x], seen[k2x]]
            seen.contains_key(k1x) && seen.contains_key(k2x) && k1x != k2x ==> seen[k1x]
                != seen[k2x],
        forall|k: u128| #[trigger] seen.contains_key(k) ==> c_inno < seen[k],
    ensures
        ({
            let id1 = inno_result(seen, head, k1);
            let seen1 = inno_seen_after(seen, head, k1);
            let head1 = inno_head_after(seen, head, k1) as usize;
            let id2 = inno_result(seen1, head1, k2);
            id1 != id2 && id1 != c_inno && id2 != c_inno
        }),
{
}

} // verus!
