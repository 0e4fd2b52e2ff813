//! Aligning two connection sequences by innovation id: the disjoint/excess
//! accounting, the average parameter difference, the compatibility distance,
//! and crossover of two parents.

use crate::genome::recurrent::sorted_by_inno;
use crate::rng::EvolutionEvent;
use crate::rng::ProbBinding;
use crate::genome::recurrent::CTRConnection;
use crate::genome::recurrent::DISJOINT_COEFFICIENT;
use crate::genome::recurrent::EXCESS_COEFFICIENT;
use crate::genome::recurrent::PARAM_COEFFICIENT;
use crate::fp::abs_bits;
use crate::fp::add_bits;
use crate::fp::bits_of_usize;
use crate::fp::div_bits;
use crate::fp::mul_bits;
use crate::fp::r_add;
use crate::fp::r_div;
use crate::fp::r_mul;
use crate::fp::r_of_usize;
use crate::fp::spec_is_nan;
use crate::fp::sub_bits;
use crate::fp::R_SIGN;
use crate::fp::R_ZERO;
use vstd::prelude::*;

verus! {

/// The number of disjoint innovation ids between two sequences sorted by
/// innovation id: ids present on one side only, met before either side is
/// exhausted when both are walked front to front.
pub open spec fn de_disjoint(l: Seq<CTRConnection>, r: Seq<CTRConnection>) -> int
    decreases l.len() + r.len(),
{
    if l.len() == 0 || r.len() == 0 {
        0
    } else if l[0].inno == r[0].inno {
        de_disjoint(l.drop_first(), r.drop_first())
    } else if l[0].inno < r[0].inno {
        1 + de_disjoint(l.drop_first(), r)
    } else {
        1 + de_disjoint(l, r.drop_first())
    }
}

/// The number of excess connections between two sequences sorted by
/// innovation id: whatever remains on the longer-reaching side once the
/// other is exhausted.
pub open spec fn de_excess(l: Seq<CTRConnection>, r: Seq<CTRConnection>) -> int
    decreases l.len() + r.len(),
{
    if l.len() == 0 {
        r.len() as int
    } else if r.len() == 0 {
        l.len() as int
    } else if l[0].inno == r[0].inno {
        de_excess(l.drop_first(), r.drop_first())
    } else if l[0].inno < r[0].inno {
        de_excess(l.drop_first(), r)
    } else {
        de_excess(l, r.drop_first())
    }
}

/// The left-to-right accumulation of the parameter differences of every
/// matched pair, starting from `acc`.
pub open spec fn diff_fold(l: Seq<CTRConnection>, r: Seq<CTRConnection>, acc: u64) -> u64
    decreases l.len() + r.len(),
{
    if l.len() == 0 || r.len() == 0 {
        acc
    } else if l[0].inno == r[0].inno {
        diff_fold(
            l.drop_first(),
            r.drop_first(),
            add_bits(acc, abs_bits(sub_bits(l[0].weight, r[0].weight))),
        )
    } else if l[0].inno < r[0].inno {
        diff_fold(l.drop_first(), r, acc)
    } else {
        diff_fold(l, r.drop_first(), acc)
    }
}

/// The number of innovation ids shared by the two sequences, walked front to
/// front.
pub open spec fn match_count(l: Seq<CTRConnection>, r: Seq<CTRConnection>) -> int
    decreases l.len() + r.len(),
{
    if l.len() == 0 || r.len() == 0 {
        0
    } else if l[0].inno == r[0].inno {
        1 + match_count(l.drop_first(), r.drop_first())
    } else if l[0].inno < r[0].inno {
        match_count(l.drop_first(), r)
    } else {
        match_count(l, r.drop_first())
    }
}

/// No connection of the sequence carries a NaN weight.
pub open spec fn weights_ok(s: Seq<CTRConnection>) -> bool {
    forall|i: int| 0 <= i < s.len() ==> !spec_is_nan((#[trigger] s[i]).weight)
}

/// Disjoint, excess and match counting does not depend on the order of the
/// two arguments.
pub proof fn lemma_de_count_symmetric(l: Seq<CTRConnection>, r: Seq<CTRConnection>)
    ensures
        de_disjoint(l, r) == de_disjoint(r, l),
        de_excess(l, r) == de_excess(r, l),
        match_count(l, r) == match_count(r, l),
    decreases l.len() + r.len(),
{
    if l.len() == 0 || r.len() == 0 {
    } else if l[0].inno == r[0].inno {
        lemma_de_count_symmetric(l.drop_first(), r.drop_first());
    } else if l[0].inno < r[0].inno {
        lemma_de_count_symmetric(l.drop_first(), r);
    } else {
        lemma_de_count_symmetric(l, r.drop_first());
    }
}

/// Against an empty sequence, on either side, there are no disjoint ids and
/// no matches, the whole other side is excess, and the average parameter
/// difference is 0.0.
pub proof fn lemma_de_count_empty(l: Seq<CTRConnection>)
    ensures
        de_disjoint(l, Seq::<CTRConnection>::empty()) == 0,
        de_excess(l, Seq::<CTRConnection>::empty()) == l.len(),
        match_count(l, Seq::<CTRConnection>::empty()) == 0,
        de_disjoint(Seq::<CTRConnection>::empty(), l) == 0,
        de_excess(Seq::<CTRConnection>::empty(), l) == l.len(),
        match_count(Seq::<CTRConnection>::empty(), l) == 0,
        spec_avg_param_diff(l, Seq::<CTRConnection>::empty()) == R_ZERO,
        spec_avg_param_diff(Seq::<CTRConnection>::empty(), l) == R_ZERO,
{
}

/// Walk two connection sequences sorted by innovation id and count their
/// `(disjoint, excess)` ids: on equal front ids both sides advance, on
/// unequal ids the smaller side advances and counts one disjoint, and
/// whatever remains after one side is exhausted is excess.
pub fn disjoint_excess_count(l: &[CTRConnection], r: &[CTRConnection]) -> (counts: (usize, usize))
    requires
        l@.len() + r@.len() <= usize::MAX,
    ensures
        counts.0 == de_disjoint(l@, r@),
        counts.1 == de_excess(l@, r@),
{
    let l_len = l.len();
    let r_len = r.len();
    let mut li: usize = 0;
    let mut ri: usize = 0;
    let mut disjoint: usize = 0;
    proof {
        assert(l@.skip(0) =~= l@);
        assert(r@.skip(0) =~= r@);
    }
    while li < l_len && ri < r_len
        invariant
            li <= l_len == l@.len(),
            ri <= r_len == r@.len(),
            l@.len() + r@.len() <= usize::MAX,
            disjoint <= li + ri,
            de_disjoint(l@, r@) == disjoint + de_disjoint(l@.skip(li as int), r@.skip(ri as int)),
            de_excess(l@, r@) == de_excess(l@.skip(li as int), r@.skip(ri as int)),
        decreases l_len - li + r_len - ri,
    {
        proof {
            assert(l@.skip(li as int).drop_first() =~= l@.skip(li + 1));
            assert(r@.skip(ri as int).drop_first() =~= r@.skip(ri + 1));
            assert(l@.skip(li as int)[0] == l@[li as int]);
            assert(r@.skip(ri as int)[0] == r@[ri as int]);
        }
        let l_inno = l[li].inno;
        let r_inno = r[ri].inno;
        if l_inno == r_inno {
            li += 1;
            ri += 1;
        } else if l_inno < r_inno {
            disjoint += 1;
            li += 1;
        } else {
            disjoint += 1;
            ri += 1;
        }
    }
    proof {
        if li == l@.len() {
            assert(l@.skip(li as int) =~= Seq::<CTRConnection>::empty());
        } else {
            assert(r@.skip(ri as int) =~= Seq::<CTRConnection>::empty());
        }
    }
    (disjoint, (l_len - li) + (r_len - ri))
}

/// Walk the matched pairs of two connection sequences sorted by innovation
/// id and average their parameter differences: the left-to-right sum of
/// absolute weight differences over matched ids, divided by the number of
/// matches, and 0.0 when nothing matches.
pub fn avg_param_diff(l: &[CTRConnection], r: &[CTRConnection]) -> (avg: u64)
    ensures
        avg == spec_avg_param_diff(l@, r@),
        weights_ok(l@) && weights_ok(r@) ==> avg == spec_avg_param_diff(r@, l@),
        avg & R_SIGN == 0,
{
    let l_len = l.len();
    let r_len = r.len();
    let mut li: usize = 0;
    let mut ri: usize = 0;
    let mut count: usize = 0;
    let mut diff: u64 = R_ZERO;
    proof {
        assert(l@.skip(0) =~= l@);
        assert(r@.skip(0) =~= r@);
        assert(0u64 & 0x8000_0000_0000_0000 == 0u64) by (bit_vector);
    }
    while li < l_len && ri < r_len
        invariant
            li <= l_len == l@.len(),
            ri <= r_len == r@.len(),
            count <= li && count <= ri,
            diff & R_SIGN == 0,
            diff_fold(l@, r@, R_ZERO) == diff_fold(l@.skip(li as int), r@.skip(ri as int), diff),
            match_count(l@, r@) == count + match_count(l@.skip(li as int), r@.skip(ri as int)),
            weights_ok(l@) && weights_ok(r@) ==> diff_fold(r@, l@, R_ZERO) == diff_fold(
                r@.skip(ri as int),
                l@.skip(li as int),
                diff,
            ),
        decreases l_len - li + r_len - ri,
    {
        proof {
            assert(l@.skip(li as int).drop_first() =~= l@.skip(li + 1));
            assert(r@.skip(ri as int).drop_first() =~= r@.skip(ri + 1));
            assert(l@.skip(li as int)[0] == l@[li as int]);
            assert(r@.skip(ri as int)[0] == r@[ri as int]);
        }
        let l_inno = l[li].inno;
        let r_inno = r[ri].inno;
        if l_inno == r_inno {
            diff = r_add(diff, l[li].param_diff(&r[ri]));
            count += 1;
            li += 1;
            ri += 1;
        } else if l_inno < r_inno {
            li += 1;
        } else {
            ri += 1;
        }
    }
    proof {
        if li == l@.len() {
            assert(l@.skip(li as int) =~= Seq::<CTRConnection>::empty());
        } else {
            assert(r@.skip(ri as int) =~= Seq::<CTRConnection>::empty());
        }
        if li == l@.len() && ri < r@.len() {
            assert(r@.skip(ri as int).len() > 0);
        }
        lemma_de_count_symmetric(l@, r@);
    }
    if count == 0 {
        R_ZERO
    } else {
        r_div(diff, r_of_usize(count))
    }
}

/// The average parameter difference of the matched pairs: 0.0 when nothing
/// matches (in particular against an empty sequence).
pub open spec fn spec_avg_param_diff(l: Seq<CTRConnection>, r: Seq<CTRConnection>) -> u64 {
    if match_count(l, r) == 0 {
        R_ZERO
    } else {
        div_bits(diff_fold(l, r, R_ZERO), bits_of_usize(match_count(l, r) as usize))
    }
}

/// The compatibility distance of two connection sequences sorted by
/// innovation id, normalized by the larger size once that size reaches 20.
pub open spec fn spec_delta(l: Seq<CTRConnection>, r: Seq<CTRConnection>) -> u64 {
    let n = if l.len() < r.len() {
        r.len() as usize
    } else {
        l.len() as usize
    };
    let norm = if n < 20 {
        1usize
    } else {
        n
    };
    if l.len() == 0 || r.len() == 0 {
        div_bits(mul_bits(EXCESS_COEFFICIENT, bits_of_usize(n)), bits_of_usize(norm))
    } else {
        add_bits(
            div_bits(
                add_bits(
                    mul_bits(DISJOINT_COEFFICIENT, bits_of_usize(de_disjoint(l, r) as usize)),
                    mul_bits(EXCESS_COEFFICIENT, bits_of_usize(de_excess(l, r) as usize)),
                ),
                bits_of_usize(norm),
            ),
            mul_bits(PARAM_COEFFICIENT, spec_avg_param_diff(l, r)),
        )
    }
}

/// The compatibility distance: the coefficient-weighted disjoint and excess
/// counts over the normalization size, plus the weighted average parameter
/// difference of the matched pairs.
pub fn delta(l: &[CTRConnection], r: &[CTRConnection]) -> (d: u64)
    requires
        l@.len() + r@.len() <= usize::MAX,
    ensures
        d == spec_delta(l@, r@),
        weights_ok(l@) && weights_ok(r@) ==> d == spec_delta(r@, l@),
        d & R_SIGN == 0,
{
    proof {
        lemma_de_count_symmetric(l@, r@);
        assert(0x3FF0_0000_0000_0000u64 & 0x8000_0000_0000_0000 == 0u64) by (bit_vector);
        assert(0x3FD9_9999_9999_999Au64 & 0x8000_0000_0000_0000 == 0u64) by (bit_vector);
    }
    let l_len = l.len();
    let r_len = r.len();
    let n = if l_len < r_len {
        r_len
    } else {
        l_len
    };
    let norm = if n < 20 {
        1
    } else {
        n
    };
    if l_len == 0 || r_len == 0 {
        r_div(r_mul(EXCESS_COEFFICIENT, r_of_usize(n)), r_of_usize(norm))
    } else {
        let (disjoint, excess) = disjoint_excess_count(l, r);
        proof {
            lemma_de_counts_bounded(l@, r@);
        }
        r_add(
            r_div(
                r_add(
                    r_mul(DISJOINT_COEFFICIENT, r_of_usize(disjoint)),
                    r_mul(EXCESS_COEFFICIENT, r_of_usize(excess)),
                ),
                r_of_usize(norm),
            ),
            r_mul(PARAM_COEFFICIENT, avg_param_diff(l, r)),
        )
    }
}

/// Disjoint and excess counts never exceed the combined length of the two
/// sequences.
pub proof fn lemma_de_counts_bounded(l: Seq<CTRConnection>, r: Seq<CTRConnection>)
    ensures
        0 <= de_disjoint(l, r) <= l.len() + r.len(),
        0 <= de_excess(l, r) <= l.len() + r.len(),
        0 <= match_count(l, r) <= l.len() + r.len(),
    decreases l.len() + r.len(),
{
    if l.len() == 0 || r.len() == 0 {
    } else if l[0].inno == r[0].inno {
        lemma_de_counts_bounded(l.drop_first(), r.drop_first());
    } else if l[0].inno < r[0].inno {
        lemma_de_counts_bounded(l.drop_first(), r);
    } else {
        lemma_de_counts_bounded(l, r.drop_first());
    }
}

/// The same connection with its enabled flag replaced.
pub open spec fn with_enabled(c: CTRConnection, e: bool) -> CTRConnection {
    CTRConnection { enabled: e, ..c }
}

/// Whether `c` is the gene `src`, at most with its enabled flag cleared.
pub open spec fn same_gene(c: CTRConnection, src: CTRConnection) -> bool {
    c == src || c == with_enabled(src, false)
}

/// Whether some connection of the sequence carries the innovation id.
pub open spec fn has_inno(s: Seq<CTRConnection>, x: usize) -> bool {
    exists|i: int| 0 <= i < s.len() && s[i].inno == x
}

/// The connection of the sequence carrying the innovation id.
pub open spec fn at_inno(s: Seq<CTRConnection>, x: usize) -> CTRConnection {
    s[choose|i: int| 0 <= i < s.len() && s[i].inno == x]
}

/// In a sequence sorted by innovation id, the connection found under the id
/// of position `i` is the connection at position `i`.
pub proof fn lemma_at_inno(s: Seq<CTRConnection>, i: int)
    requires
        sorted_by_inno(s),
        0 <= i < s.len(),
    ensures
        has_inno(s, s[i].inno),
        at_inno(s, s[i].inno) == s[i],
{
    assert(0 <= i < s.len() && s[i].inno == s[i].inno);
    let j = choose|j: int| 0 <= j < s.len() && s[j].inno == s[i].inno;
    if j < i {
        assert(s[j].inno < s[i].inno);
    } else if i < j {
        assert(s[i].inno < s[j].inno);
    }
}

/// Appending a connection whose id lies above the whole sequence keeps the
/// sequence sorted.
pub proof fn lemma_sorted_push(s: Seq<CTRConnection>, c: CTRConnection)
    requires
        sorted_by_inno(s),
        forall|i: int| 0 <= i < s.len() ==> s[i].inno < c.inno,
    ensures
        sorted_by_inno(s.push(c)),
{
    assert forall|i: int, j: int| 0 <= i < j < s.push(c).len() implies s.push(c)[i].inno < s.push(
        c,
    )[j].inno by {
        if j < s.len() {
            assert(s.push(c)[i] == s[i] && s.push(c)[j] == s[j]);
        } else {
            assert(s.push(c)[i] == s[i] && s.push(c)[j] == c);
        }
    }
}

/// Appending a connection adds exactly its innovation id to those present.
pub proof fn lemma_has_inno_push(s: Seq<CTRConnection>, c: CTRConnection, x: usize)
    ensures
        has_inno(s.push(c), x) <==> (has_inno(s, x) || c.inno == x),
{
    if has_inno(s.push(c), x) {
        let i = choose|i: int| 0 <= i < s.push(c).len() && s.push(c)[i].inno == x;
        if i < s.len() {
            assert(s[i].inno == x);
        } else {
            assert(s.push(c)[i] == c);
        }
    }
    if has_inno(s, x) {
        let i = choose|i: int| 0 <= i < s.len() && s[i].inno == x;
        assert(s.push(c)[i].inno == x);
    }
    if c.inno == x {
        assert(s.push(c)[s.len() as int].inno == x);
    }
}

/// Taking one more element adds exactly its innovation id to those present.
pub proof fn lemma_has_inno_take_step(s: Seq<CTRConnection>, i: int, x: usize)
    requires
        0 <= i < s.len(),
    ensures
        has_inno(s.take(i + 1), x) <==> (has_inno(s.take(i), x) || s[i].inno == x),
{
    assert(s.take(i + 1) =~= s.take(i).push(s[i]));
    lemma_has_inno_push(s.take(i), s[i], x);
}

/// Whether `c` could have been produced from the sequences `l` and `r`: the
/// side carrying its innovation id supplied the gene, at most with its
/// enabled flag cleared.
pub open spec fn gene_from(l: Seq<CTRConnection>, r: Seq<CTRConnection>, c: CTRConnection) -> bool {
    ||| (has_inno(l, c.inno) && same_gene(c, at_inno(l, c.inno)))
    ||| (has_inno(r, c.inno) && same_gene(c, at_inno(r, c.inno)))
}

/// What crossover of two equally fit parents produces: a sequence sorted by
/// innovation id whose ids are exactly the union of the parents' ids, each
/// gene taken from a parent carrying its id, at most disabled.
pub open spec fn crossover_eq_post(
    l: Seq<CTRConnection>,
    r: Seq<CTRConnection>,
    res: Seq<CTRConnection>,
) -> bool {
    &&& sorted_by_inno(res)
    &&& forall|i: int| 0 <= i < res.len() ==> gene_from(l, r, #[trigger] res[i])
    &&& forall|x: usize| #[trigger] has_inno(res, x) <==> (has_inno(l, x) || has_inno(r, x))
}

/// What crossover under a fitter left parent produces: position by position
/// the fitter parent's innovation ids, each gene taken from it or from the
/// other parent's connection of the same id, at most disabled.
pub open spec fn crossover_ne_post(
    l: Seq<CTRConnection>,
    r: Seq<CTRConnection>,
    res: Seq<CTRConnection>,
) -> bool {
    &&& res.len() == l.len()
    &&& forall|i: int| 0 <= i < res.len() ==> (#[trigger] res[i]).inno == l[i].inno
    &&& forall|i: int|
        0 <= i < res.len() ==> (same_gene(#[trigger] res[i], l[i]) || (has_inno(r, l[i].inno)
            && same_gene(res[i], at_inno(r, l[i].inno))))
}

/// One child gene: the base connection, or by a fair event the overlapping
/// connection if one is given; disabled genes tend to stay disabled, and any
/// gene may come out freshly disabled.
fn pick_gene(base: &CTRConnection, opt: Option<&CTRConnection>, rng: &mut ProbBinding) -> (c:
    CTRConnection)
    requires
        old(rng).wf(),
    ensures
        final(rng).wf(),
        final(rng).probs == old(rng).probs,
        match opt {
            None => same_gene(c, *base),
            Some(o) => same_gene(c, *base) || same_gene(c, *o),
        },
{
    let mut conn: CTRConnection = match opt {
        Some(r_conn) => {
            if rng.happens(EvolutionEvent::PickLEQ) {
                *r_conn
            } else {
                *base
            }
        },
        None => *base,
    };
    let either_disabled = !base.enabled || (match opt {
        Some(r_conn) => !r_conn.enabled,
        None => false,
    });
    let mut disable = false;
    if either_disabled {
        disable = rng.happens(EvolutionEvent::KeepDisabled);
    }
    if !disable {
        disable = rng.happens(EvolutionEvent::NewDisabled);
    }
    if disable {
        conn.enabled = false;
    }
    conn
}

/// Crossover of two equally fit parents: walk both connection sequences by
/// innovation id; shared ids contribute one of the two genes by a fair
/// event, one-sided ids contribute their only gene; so the child's ids are
/// the union of the parents' ids.
fn crossover_eq(l: &[CTRConnection], r: &[CTRConnection], rng: &mut ProbBinding) -> (res: Vec<
    CTRConnection,
>)
    requires
        old(rng).wf(),
        sorted_by_inno(l@),
        sorted_by_inno(r@),
    ensures
        final(rng).wf(),
        final(rng).probs == old(rng).probs,
        crossover_eq_post(l@, r@, res@),
{
    let ghost probs0 = rng.probs;
    let l_len = l.len();
    let r_len = r.len();
    let mut li: usize = 0;
    let mut ri: usize = 0;
    let mut cross: Vec<CTRConnection> = Vec::new();
    proof {
        assert(l@.take(0) =~= Seq::<CTRConnection>::empty());
        assert(r@.take(0) =~= Seq::<CTRConnection>::empty());
    }
    while li < l_len && ri < r_len
        invariant
            rng.wf(),
            rng.probs == probs0,
            sorted_by_inno(l@),
            sorted_by_inno(r@),
            li <= l_len == l@.len(),
            ri <= r_len == r@.len(),
            sorted_by_inno(cross@),
            forall|i: int| 0 <= i < cross@.len() ==> gene_from(l@, r@, #[trigger] cross@[i]),
            forall|x: usize| #[trigger]
                has_inno(cross@, x) <==> (has_inno(l@.take(li as int), x) || has_inno(
                    r@.take(ri as int),
                    x,
                )),
            forall|a: int, b: int|
                0 <= a < cross@.len() && li <= b < l@.len() ==> (#[trigger] cross@[a]).inno < (
                #[trigger] l@[b]).inno,
            forall|a: int, b: int|
                0 <= a < cross@.len() && ri <= b < r@.len() ==> (#[trigger] cross@[a]).inno < (
                #[trigger] r@[b]).inno,
        decreases l_len - li + r_len - ri,
    {
        let l_inno = l[li].inno;
        let r_inno = r[ri].inno;
        proof {
            lemma_at_inno(l@, li as int);
            lemma_at_inno(r@, ri as int);
        }
        if l_inno == r_inno {
            let c = pick_gene(&l[li], Some(&r[ri]), rng);
            proof {
                lemma_sorted_push(cross@, c);
                assert forall|x: usize| #[trigger]
                    has_inno(cross@.push(c), x) <==> (has_inno(l@.take(li + 1), x) || has_inno(
                        r@.take(ri + 1),
                        x,
                    )) by {
                    lemma_has_inno_push(cross@, c, x);
                    lemma_has_inno_take_step(l@, li as int, x);
                    lemma_has_inno_take_step(r@, ri as int, x);
                }
            }
            cross.push(c);
            li += 1;
            ri += 1;
        } else if l_inno < r_inno {
            let c = pick_gene(&l[li], None, rng);
            proof {
                lemma_sorted_push(cross@, c);
                assert forall|x: usize| #[trigger]
                    has_inno(cross@.push(c), x) <==> (has_inno(l@.take(li + 1), x) || has_inno(
                        r@.take(ri as int),
                        x,
                    )) by {
                    lemma_has_inno_push(cross@, c, x);
                    lemma_has_inno_take_step(l@, li as int, x);
                }
            }
            cross.push(c);
            li += 1;
        } else {
            let c = pick_gene(&r[ri], None, rng);
            proof {
                lemma_sorted_push(cross@, c);
                assert forall|x: usize| #[trigger]
                    has_inno(cross@.push(c), x) <==> (has_inno(l@.take(li as int), x) || has_inno(
                        r@.take(ri + 1),
                        x,
                    )) by {
                    lemma_has_inno_push(cross@, c, x);
                    lemma_has_inno_take_step(r@, ri as int, x);
                }
            }
            cross.push(c);
            ri += 1;
        }
    }
    while li < l_len
        invariant
            rng.wf(),
            rng.probs == probs0,
            sorted_by_inno(l@),
            sorted_by_inno(r@),
            li <= l_len == l@.len(),
            li < l_len ==> ri == r@.len(),
            ri <= r@.len(),
            sorted_by_inno(cross@),
            forall|i: int| 0 <= i < cross@.len() ==> gene_from(l@, r@, #[trigger] cross@[i]),
            forall|x: usize| #[trigger]
                has_inno(cross@, x) <==> (has_inno(l@.take(li as int), x) || has_inno(
                    r@.take(ri as int),
                    x,
                )),
            forall|a: int, b: int|
                0 <= a < cross@.len() && li <= b < l@.len() ==> (#[trigger] cross@[a]).inno < (
                #[trigger] l@[b]).inno,
            forall|a: int, b: int|
                0 <= a < cross@.len() && ri <= b < r@.len() ==> (#[trigger] cross@[a]).inno < (
                #[trigger] r@[b]).inno,
        decreases l_len - li,
    {
        proof {
            lemma_at_inno(l@, li as int);
        }
        let c = pick_gene(&l[li], None, rng);
        proof {
            lemma_sorted_push(cross@, c);
            assert forall|x: usize| #[trigger]
                has_inno(cross@.push(c), x) <==> (has_inno(l@.take(li + 1), x) || has_inno(
                    r@.take(ri as int),
                    x,
                )) by {
                lemma_has_inno_push(cross@, c, x);
                lemma_has_inno_take_step(l@, li as int, x);
            }
        }
        cross.push(c);
        li += 1;
    }
    while ri < r_len
        invariant
            rng.wf(),
            rng.probs == probs0,
            sorted_by_inno(l@),
            sorted_by_inno(r@),
            li == l@.len(),
            ri <= r_len == r@.len(),
            sorted_by_inno(cross@),
            forall|i: int| 0 <= i < cross@.len() ==> gene_from(l@, r@, #[trigger] cross@[i]),
            forall|x: usize| #[trigger]
                has_inno(cross@, x) <==> (has_inno(l@.take(li as int), x) || has_inno(
                    r@.take(ri as int),
                    x,
                )),
            forall|a: int, b: int|
                0 <= a < cross@.len() && ri <= b < r@.len() ==> (#[trigger] cross@[a]).inno < (
                #[trigger] r@[b]).inno,
        decreases r_len - ri,
    {
        proof {
            lemma_at_inno(r@, ri as int);
        }
        let c = pick_gene(&r[ri], None, rng);
        proof {
            lemma_sorted_push(cross@, c);
            assert forall|x: usize| #[trigger]
                has_inno(cross@.push(c), x) <==> (has_inno(l@.take(li as int), x) || has_inno(
                    r@.take(ri + 1),
                    x,
                )) by {
                lemma_has_inno_push(cross@, c, x);
                lemma_has_inno_take_step(r@, ri as int, x);
            }
        }
        cross.push(c);
        ri += 1;
    }
    proof {
        assert(l@.take(li as int) =~= l@);
        assert(r@.take(ri as int) =~= r@);
    }
    cross
}

/// Crossover under a fitter left parent: the child takes exactly the fitter
/// parent's innovation ids; where the other parent shares an id the gene is
/// chosen between the two by a fair event.
fn crossover_ne(l: &[CTRConnection], r: &[CTRConnection], rng: &mut ProbBinding) -> (res: Vec<
    CTRConnection,
>)
    requires
        old(rng).wf(),
        sorted_by_inno(l@),
        sorted_by_inno(r@),
    ensures
        final(rng).wf(),
        final(rng).probs == old(rng).probs,
        crossover_ne_post(l@, r@, res@),
        sorted_by_inno(res@),
{
    let ghost probs0 = rng.probs;
    let l_len = l.len();
    let r_len = r.len();
    let mut cross: Vec<CTRConnection> = Vec::new();
    let mut r_idx: usize = 0;
    let mut i: usize = 0;
    while i < l_len
        invariant
            rng.wf(),
            rng.probs == probs0,
            sorted_by_inno(l@),
            sorted_by_inno(r@),
            i <= l_len == l@.len(),
            r_idx <= r_len == r@.len(),
            cross@.len() == i,
            forall|k: int| 0 <= k < i ==> (#[trigger] cross@[k]).inno == l@[k].inno,
            forall|k: int|
                0 <= k < i ==> (same_gene(#[trigger] cross@[k], l@[k]) || (has_inno(r@, l@[k].inno)
                    && same_gene(cross@[k], at_inno(r@, l@[k].inno)))),
            forall|j: int| 0 <= j < r_idx && i < l@.len() ==> (#[trigger] r@[j]).inno < l@[i as int].inno,
        decreases l_len - i,
    {
        while r_idx < r_len && r[r_idx].inno < l[i].inno
            invariant
                sorted_by_inno(r@),
                i < l@.len() == l_len,
                r_idx <= r_len == r@.len(),
                forall|j: int| 0 <= j < r_idx ==> (#[trigger] r@[j]).inno < l@[i as int].inno,
            decreases r_len - r_idx,
        {
            r_idx += 1;
        }
        let matched = r_idx < r_len && r[r_idx].inno == l[i].inno;
        let c = if matched {
            proof {
                lemma_at_inno(r@, r_idx as int);
            }
            pick_gene(&l[i], Some(&r[r_idx]), rng)
        } else {
            pick_gene(&l[i], None, rng)
        };
        cross.push(c);
        i += 1;
        proof {
            assert forall|j: int|
                0 <= j < r_idx && i < l@.len() implies (#[trigger] r@[j]).inno < l@[i as int].inno by {
                assert(l@[i - 1].inno < l@[i as int].inno);
            }
        }
    }
    proof {
        assert forall|a: int, b: int| 0 <= a < b < cross@.len() implies cross@[a].inno
            < cross@[b].inno by {
            assert(cross@[a].inno == l@[a].inno && cross@[b].inno == l@[b].inno);
        }
    }
    cross
}

/// Crossover of two parent connection sequences. `l_fit` says how fit the
/// left parent is compared to the right one: under equal fitness the child's
/// innovation ids are the union of the parents' ids, otherwise they are
/// exactly the fitter parent's. The child is sorted by innovation id.
pub fn crossover(
    l: &[CTRConnection],
    r: &[CTRConnection],
    l_fit: core::cmp::Ordering,
    rng: &mut ProbBinding,
) -> (res: Vec<CTRConnection>)
    requires
        old(rng).wf(),
        sorted_by_inno(l@),
        sorted_by_inno(r@),
    ensures
        final(rng).wf(),
        final(rng).probs == old(rng).probs,
        l_fit is Equal ==> crossover_eq_post(l@, r@, res@),
        l_fit is Greater ==> crossover_ne_post(l@, r@, res@),
        l_fit is Less ==> crossover_ne_post(r@, l@, res@),
        sorted_by_inno(res@),
{
    match l_fit {
        core::cmp::Ordering::Equal => crossover_eq(l, r, rng),
        core::cmp::Ordering::Less => crossover_ne(r, l, rng),
        core::cmp::Ordering::Greater => crossover_ne(l, r, rng),
    }
}


/// The connection a sorted sequence holds under a present innovation id is
/// one of its elements, so its endpoints respect any bound the elements do.
pub proof fn lemma_at_inno_bounds(s: Seq<CTRConnection>, x: usize, n: int)
    requires
        has_inno(s, x),
        forall|i: int| 0 <= i < s.len() ==> (#[trigger] s[i]).from < n && s[i].to < n,
    ensures
        at_inno(s, x).from < n,
        at_inno(s, x).to < n,
{
    let j = choose|j: int| 0 <= j < s.len() && s[j].inno == x;
    assert(s[j].from < n && s[j].to < n);
}

} // verus!
