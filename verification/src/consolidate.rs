//! Partitioning of a fragmented wallet's spendable outputs into
//! consolidation batches.
//!
//! When a payment would need more inputs than one transaction may carry,
//! the pipeline merges the wallet's outputs via self-payments: the
//! spendable outputs are split, in the order the network reported them,
//! into groups of at most one less than the per-transaction input cap
//! (one slot stays reserved for bookkeeping), and each group becomes one
//! self-payment of the group's total worth.

use vstd::prelude::*;

use crate::spent::SpentInputSet;
use crate::types::{outs_v, sources_of, sum_amounts, InputRef, OutputModel, RefModel, SpendableOutput};

verus! {

/// The models of each group of a partition.
pub open spec fn groups_v(gs: Seq<Vec<SpendableOutput>>) -> Seq<Seq<OutputModel>> {
    gs.map_values(|g: Vec<SpendableOutput>| outs_v(g@))
}

/// How many groups a list of `n` outputs splits into at `cap` outputs
/// per group: `n / cap`, rounded up.
pub open spec fn chunk_count(n: int, cap: int) -> int {
    if n == 0 {
        0
    } else {
        (n + cap - 1) / cap
    }
}

/// The `i`-th group of `all` split at `cap` outputs per group.
pub open spec fn chunk_of(all: Seq<OutputModel>, cap: int, i: int) -> Seq<OutputModel> {
    all.subrange(i * cap, if (i + 1) * cap <= all.len() {
        (i + 1) * cap
    } else {
        all.len() as int
    })
}

/// Whether `groups` is exactly the in-order split of `all` at `cap`
/// outputs per group.
pub open spec fn is_chunking(groups: Seq<Seq<OutputModel>>, all: Seq<OutputModel>, cap: int) -> bool {
    &&& groups.len() == chunk_count(all.len() as int, cap)
    &&& forall|i: int| 0 <= i < groups.len() ==> #[trigger] groups[i] == chunk_of(all, cap, i)
}

/// Split `outputs` into consolidation groups of at most `max_io - 1`
/// outputs each, preserving order.
///
/// The groups concatenate back to exactly the input list — every output
/// lands in exactly one group, nothing is reordered, duplicated or
/// dropped — each group is non-empty and holds at most `max_io - 1`
/// outputs, and there are exactly as many groups as rounding
/// `outputs.len() / (max_io - 1)` up demands.
pub fn partition_outputs(outputs: &Vec<SpendableOutput>, max_io: usize) -> (groups: Vec<
    Vec<SpendableOutput>,
>)
    requires
        max_io >= 2,
    ensures
        groups_v(groups@).flatten() == outs_v(outputs@),
        groups@.len() == chunk_count(outputs@.len() as int, max_io - 1),
        forall|i: int| 0 <= i < groups@.len() ==> 1 <= #[trigger] groups@[i]@.len() <= max_io - 1,
        is_chunking(groups_v(groups@), outs_v(outputs@), max_io - 1),
{
    let cap = max_io - 1;
    let n = outputs.len();
    let mut groups: Vec<Vec<SpendableOutput>> = Vec::new();
    let mut i: usize = 0;
    proof {
        assert(groups@.len() == 0);
        assert(groups@.len() * cap == 0) by (nonlinear_arith)
            requires
                groups@.len() == 0,
        ;
        assert(groups_v(groups@).flatten() =~= outs_v(outputs@.take(0)));
    }
    while i < n
        invariant
            max_io >= 2,
            cap == max_io - 1,
            n == outputs@.len(),
            i <= n,
            i == groups@.len() * cap || (i == n && groups@.len() == chunk_count(
                n as int,
                cap as int,
            )),
            groups_v(groups@).flatten() =~= outs_v(outputs@.take(i as int)),
            forall|k: int| 0 <= k < groups@.len() ==> 1 <= #[trigger] groups@[k]@.len() <= cap,
            forall|k: int| 0 <= k < groups@.len() ==> #[trigger] groups_v(groups@)[k] == chunk_of(
                outs_v(outputs@),
                cap as int,
                k,
            ),
        decreases n - i,
    {
        let ghost q = groups@.len() as int;
        proof {
            assert(i as int == q * (cap as int));
        }
        let end = if n - i < cap {
            n
        } else {
            i + cap
        };
        let mut g: Vec<SpendableOutput> = Vec::new();
        let mut j: usize = i;
        while j < end
            invariant
                i <= j <= end <= outputs@.len(),
                outs_v(g@) =~= outs_v(outputs@.subrange(i as int, j as int)),
                g@.len() == j - i,
            decreases end - j,
        {
            let ghost gprev = g@;
            g.push(outputs[j]);
            proof {
                assert(outs_v(g@) =~= outs_v(gprev).push(outputs@[j as int]@));
                assert(outputs@.subrange(i as int, j + 1) =~= outputs@.subrange(
                    i as int,
                    j as int,
                ).push(outputs@[j as int]));
                assert(outs_v(outputs@.subrange(i as int, j + 1)) =~= outs_v(outputs@.subrange(
                    i as int,
                    j as int,
                )).push(outputs@[j as int]@));
                assert(outs_v(g@) =~= outs_v(outputs@.subrange(i as int, j + 1)));
            }
            j += 1;
        }
        let ghost pre = groups@;
        groups.push(g);
        proof {
            groups_v(pre).lemma_flatten_push(outs_v(g@));
            assert(groups_v(groups@) =~= groups_v(pre).push(outs_v(g@)));
            assert(groups_v(groups@).flatten() =~= groups_v(pre).flatten() + outs_v(g@));
            assert(outputs@.take(end as int) =~= outputs@.take(i as int) + outputs@.subrange(
                i as int,
                end as int,
            ));
            assert(outs_v(outputs@.take(end as int)) =~= outs_v(outputs@.take(i as int)) + outs_v(
                outputs@.subrange(i as int, end as int),
            ));
            // The new group is exactly the next chunk.
            assert(outs_v(outputs@).subrange(i as int, end as int) =~= outs_v(outputs@.subrange(
                i as int,
                end as int,
            )));
            assert((q + 1) * cap == q * cap + cap) by (nonlinear_arith);
            assert(groups_v(groups@)[q] == chunk_of(outs_v(outputs@), cap as int, q));
            assert(forall|k: int| 0 <= k < q ==> #[trigger] groups_v(groups@)[k] == groups_v(
                pre,
            )[k]);
            // The group counter stays in step with the prefix length.
            if i + cap < n {
                assert(end == (q + 1) * cap) by (nonlinear_arith)
                    requires
                        i == q * cap,
                        end == i + cap,
                ;
            } else {
                assert(end == n);
                assert(groups@.len() == chunk_count(n as int, cap as int)) by {
                    lemma_last_chunk(q, cap as int, n as int);
                }
            }
        }
        i = end;
    }
    proof {
        assert(outputs@.take(n as int) =~= outputs@);
        if n > 0 && i == groups@.len() * cap {
            assert(chunk_count(n as int, cap as int) == groups@.len()) by (nonlinear_arith)
                requires
                    n as int == groups@.len() * (cap as int),
                    n > 0,
                    cap >= 1,
            ;
        }
        if n == 0 {
            assert(groups@.len() == 0) by {
                if groups@.len() > 0 {
                    assert(groups@.len() * cap >= cap) by (nonlinear_arith)
                        requires
                            groups@.len() >= 1,
                            cap >= 1,
                    ;
                }
            }
        }
    }
    groups
}

/// After `q` full groups of `cap` outputs, a final partial group brings
/// the count to the rounded-up quotient.
proof fn lemma_last_chunk(q: int, cap: int, n: int)
    requires
        cap >= 1,
        q >= 0,
        q * cap < n <= q * cap + cap,
    ensures
        chunk_count(n, cap) == q + 1,
{
    assert((n + cap - 1) / cap == q + 1) by (nonlinear_arith)
        requires
            cap >= 1,
            q >= 0,
            q * cap < n <= q * cap + cap,
    ;
}

/// Adding up the worth of a concatenation splits into the parts.
pub proof fn lemma_sum_concat(a: Seq<OutputModel>, b: Seq<OutputModel>)
    ensures
        sum_amounts(a + b) == sum_amounts(a) + sum_amounts(b),
    decreases a.len(),
{
    if a.len() == 0 {
        assert(a + b =~= b);
    } else {
        assert((a + b).drop_first() =~= a.drop_first() + b);
        lemma_sum_concat(a.drop_first(), b);
    }
}

/// Outputs taken from real transactions are never worth a negative
/// amount, so any sum over them is at least zero.
pub proof fn lemma_sum_nonneg(s: Seq<OutputModel>)
    requires
        forall|i: int| 0 <= i < s.len() ==> #[trigger] s[i].amount >= 0,
    ensures
        sum_amounts(s) >= 0,
    decreases s.len(),
{
    if s.len() > 0 {
        lemma_sum_nonneg(s.drop_first());
    }
}

/// Two duplicate-free sequences with nothing in common concatenate to a
/// duplicate-free sequence.
pub proof fn lemma_no_dups_concat(a: Seq<RefModel>, b: Seq<RefModel>)
    requires
        a.no_duplicates(),
        b.no_duplicates(),
        forall|i: int, j: int| 0 <= i < a.len() && 0 <= j < b.len() ==> #[trigger] a[i]
            != #[trigger] b[j],
    ensures
        (a + b).no_duplicates(),
{
    assert forall|i: int, j: int| 0 <= i < j < (a + b).len() implies (a + b)[i] != (a + b)[j] by {
        if j < a.len() {
            assert((a + b)[i] == a[i] && (a + b)[j] == a[j]);
        } else if i >= a.len() {
            assert((a + b)[i] == b[i - a.len()] && (a + b)[j] == b[j - a.len()]);
        } else {
            assert((a + b)[i] == a[i] && (a + b)[j] == b[j - a.len()]);
        }
    }
}

/// The references consumed by a concatenation are the two parts'
/// references, in order.
pub proof fn lemma_sources_concat(a: Seq<OutputModel>, b: Seq<OutputModel>)
    ensures
        sources_of(a + b) == sources_of(a) + sources_of(b),
{
    assert(sources_of(a + b) =~= sources_of(a) + sources_of(b));
}

/// Whether the output at position `i` survives the freshness filter:
/// its reference is not already spent and no earlier output names the
/// same reference.
pub open spec fn keeps(outs: Seq<OutputModel>, spent: Seq<RefModel>, i: int) -> bool {
    &&& !spent.contains(outs[i].source)
    &&& forall|j: int| 0 <= j < i ==> outs[j].source != outs[i].source
}

/// The outputs that survive the freshness filter, in reported order:
/// the first occurrence of every reference that is not already spent.
pub open spec fn fresh_outputs_spec(outs: Seq<OutputModel>, spent: Seq<RefModel>) -> Seq<
    OutputModel,
>
    decreases outs.len(),
{
    if outs.len() == 0 {
        Seq::empty()
    } else {
        let rest = fresh_outputs_spec(outs.drop_last(), spent);
        if keeps(outs, spent, outs.len() - 1) {
            rest.push(outs.last())
        } else {
            rest
        }
    }
}

/// A single output is worth its amount.
pub proof fn lemma_sum_singleton(o: OutputModel)
    ensures
        sum_amounts(seq![o]) == o.amount,
{
    assert(seq![o].drop_first() =~= Seq::<OutputModel>::empty());
    assert(sum_amounts(Seq::<OutputModel>::empty()) == 0);
    assert(sum_amounts(seq![o]) == seq![o][0].amount + sum_amounts(seq![o].drop_first()));
}

/// Adding one output to a sum adds its worth.
pub proof fn lemma_sum_push(s: Seq<OutputModel>, o: OutputModel)
    ensures
        sum_amounts(s.push(o)) == sum_amounts(s) + o.amount,
{
    assert(s.push(o) =~= s + seq![o]);
    lemma_sum_concat(s, seq![o]);
    lemma_sum_singleton(o);
}

/// What the freshness filter yields: every kept output comes from the
/// input list, the kept references repeat neither each other nor the
/// spent set, and a reference is kept exactly when the list offers it
/// and it is not yet spent.
pub proof fn lemma_fresh_outputs_props(outs: Seq<OutputModel>, spent: Seq<RefModel>)
    ensures
        sources_of(fresh_outputs_spec(outs, spent)).no_duplicates(),
        forall|r: RefModel| #[trigger] sources_of(fresh_outputs_spec(outs, spent)).contains(r)
            <==> (!spent.contains(r) && exists|i: int|
            0 <= i < outs.len() && outs[i].source == r),
        forall|k: int| 0 <= k < fresh_outputs_spec(outs, spent).len() ==> outs.contains(
            #[trigger] fresh_outputs_spec(outs, spent)[k],
        ),
    decreases outs.len(),
{
    let fresh = fresh_outputs_spec(outs, spent);
    if outs.len() == 0 {
        assert(sources_of(fresh) =~= Seq::<RefModel>::empty());
    } else {
        let prefix = outs.drop_last();
        let rest = fresh_outputs_spec(prefix, spent);
        lemma_fresh_outputs_props(prefix, spent);
        assert(forall|i: int| 0 <= i < prefix.len() ==> prefix[i] == outs[i]);
        if keeps(outs, spent, outs.len() - 1) {
            let last = outs.last();
            assert(fresh == rest.push(last));
            assert(sources_of(fresh) =~= sources_of(rest).push(last.source));
            assert(!sources_of(rest).contains(last.source)) by {
                if sources_of(rest).contains(last.source) {
                    let i = choose|i: int|
                        0 <= i < prefix.len() && prefix[i].source == last.source;
                    assert(outs[i].source == outs[outs.len() - 1].source);
                }
            }
            assert(sources_of(fresh).no_duplicates()) by {
                assert(forall|i: int|
                    0 <= i < sources_of(rest).len() ==> sources_of(fresh)[i] == sources_of(
                        rest,
                    )[i]);
                assert(forall|i: int, j: int|
                    0 <= i < j < sources_of(fresh).len() ==> sources_of(fresh)[i] != sources_of(
                        fresh,
                    )[j]);
            }
            assert forall|r: RefModel| #[trigger] sources_of(fresh).contains(r) implies (
            !spent.contains(r) && exists|i: int| 0 <= i < outs.len() && outs[i].source == r) by {
                let k = choose|k: int| 0 <= k < sources_of(fresh).len() && sources_of(fresh)[k]
                    == r;
                if k < sources_of(rest).len() {
                    assert(sources_of(rest).contains(r)) by {
                        assert(sources_of(rest)[k] == r);
                    }
                } else {
                    assert(r == last.source);
                    assert(outs[outs.len() - 1].source == r);
                }
            }
            assert forall|r: RefModel| (!spent.contains(r) && exists|i: int|
                0 <= i < outs.len() && outs[i].source == r) implies #[trigger] sources_of(
                fresh,
            ).contains(r) by {
                let i = choose|i: int| 0 <= i < outs.len() && outs[i].source == r;
                if i < outs.len() - 1 {
                    assert(prefix[i].source == r);
                    assert(sources_of(rest).contains(r));
                    let k = choose|k: int| 0 <= k < sources_of(rest).len() && sources_of(
                        rest,
                    )[k] == r;
                    assert(sources_of(fresh)[k] == r);
                } else {
                    assert(sources_of(fresh)[sources_of(fresh).len() - 1] == r);
                }
            }
            assert(forall|k: int| 0 <= k < fresh.len() ==> outs.contains(#[trigger] fresh[k]))
                by {
                assert forall|k: int| 0 <= k < fresh.len() implies outs.contains(
                    #[trigger] fresh[k],
                ) by {
                    if k < rest.len() {
                        assert(prefix.contains(rest[k]));
                        let i = choose|i: int| 0 <= i < prefix.len() && prefix[i] == rest[k];
                        assert(outs[i] == fresh[k]);
                    } else {
                        assert(outs[outs.len() - 1] == fresh[k]);
                    }
                }
            }
        } else {
            assert(fresh == rest);
            assert forall|r: RefModel| (!spent.contains(r) && exists|i: int|
                0 <= i < outs.len() && outs[i].source == r) implies #[trigger] sources_of(
                fresh,
            ).contains(r) by {
                let i = choose|i: int| 0 <= i < outs.len() && outs[i].source == r;
                if i < outs.len() - 1 {
                    assert(prefix[i].source == r);
                } else {
                    // The dropped last output repeats an earlier
                    // reference or one already spent.
                    assert(!keeps(outs, spent, outs.len() - 1));
                    let j = choose|j: int|
                        0 <= j < outs.len() - 1 && #[trigger] outs[j].source == outs[outs.len()
                            - 1].source;
                    assert(prefix[j].source == r);
                }
            }
            assert forall|k: int| 0 <= k < fresh.len() implies outs.contains(
                #[trigger] fresh[k],
            ) by {
                assert(prefix.contains(rest[k]));
                let i = choose|i: int| 0 <= i < prefix.len() && prefix[i] == rest[k];
                assert(outs[i] == fresh[k]);
            }
        }
    }
}

/// The filtered list is never worth more than the reported one.
pub proof fn lemma_fresh_sum_le(outs: Seq<OutputModel>, spent: Seq<RefModel>)
    requires
        forall|i: int| 0 <= i < outs.len() ==> #[trigger] outs[i].amount >= 0,
    ensures
        sum_amounts(fresh_outputs_spec(outs, spent)) <= sum_amounts(outs),
        sum_amounts(fresh_outputs_spec(outs, spent)) >= 0,
    decreases outs.len(),
{
    if outs.len() == 0 {
    } else {
        let prefix = outs.drop_last();
        assert(forall|i: int| 0 <= i < prefix.len() ==> #[trigger] prefix[i].amount >= 0);
        lemma_fresh_sum_le(prefix, spent);
        assert(outs =~= prefix + seq![outs.last()]);
        lemma_sum_concat(prefix, seq![outs.last()]);
        lemma_sum_singleton(outs.last());
        if keeps(outs, spent, outs.len() - 1) {
            lemma_sum_push(fresh_outputs_spec(prefix, spent), outs.last());
        }
    }
}

/// Whether any of these outputs consumes the given reference.
fn sources_contain(v: &Vec<SpendableOutput>, r: &InputRef) -> (b: bool)
    ensures
        b == sources_of(outs_v(v@)).contains(r@),
{
    let mut i: usize = 0;
    while i < v.len()
        invariant
            0 <= i <= v@.len(),
            forall|j: int| 0 <= j < i ==> sources_of(outs_v(v@))[j] != r@,
        decreases v@.len() - i,
    {
        if crate::types::input_ref_eq(&v[i].source, r) {
            proof {
                assert(sources_of(outs_v(v@))[i as int] == r@);
            }
            return true;
        }
        i += 1;
    }
    false
}

/// Drop every reported output that this session has already spent, and
/// every repetition of a reference, keeping first occurrences in the
/// network's order.
pub fn fresh_outputs(outputs: &Vec<SpendableOutput>, spent: &SpentInputSet) -> (v: Vec<
    SpendableOutput,
>)
    ensures
        outs_v(v@) == fresh_outputs_spec(outs_v(outputs@), spent@),
{
    let mut v: Vec<SpendableOutput> = Vec::new();
    let mut i: usize = 0;
    proof {
        assert(outs_v(outputs@.take(0)) =~= Seq::<OutputModel>::empty());
        assert(outs_v(v@) =~= fresh_outputs_spec(outs_v(outputs@.take(0)), spent@));
    }
    while i < outputs.len()
        invariant
            0 <= i <= outputs@.len(),
            outs_v(v@) == fresh_outputs_spec(outs_v(outputs@.take(i as int)), spent@),
        decreases outputs@.len() - i,
    {
        let ghost whole = outs_v(outputs@.take(i + 1));
        let ghost part = outs_v(outputs@.take(i as int));
        proof {
            assert(outputs@.take(i + 1).drop_last() =~= outputs@.take(i as int));
            assert(whole.drop_last() =~= part);
            assert(whole.last() == outputs@[i as int]@);
            assert(forall|j: int| 0 <= j < part.len() ==> whole[j] == part[j]);
            lemma_fresh_outputs_props(part, spent@);
        }
        let o = outputs[i];
        let already_spent = spent.contains(&o.source);
        if !already_spent {
            let repeated = sources_contain(&v, &o.source);
            if !repeated {
                proof {
                    assert(keeps(whole, spent@, whole.len() - 1)) by {
                        assert forall|j: int| 0 <= j < whole.len() - 1 implies whole[j].source
                            != whole.last().source by {
                            if whole[j].source == whole.last().source {
                                assert(part[j].source == o@.source);
                                assert(sources_of(part).contains(o@.source)) by {
                                    assert(sources_of(part)[j] == part[j].source);
                                }
                                assert(sources_of(outs_v(v@)).contains(o@.source));
                            }
                        }
                    }
                }
                let ghost prev = v@;
                v.push(o);
                proof {
                    assert(outs_v(v@) =~= outs_v(prev).push(o@));
                    assert(outs_v(v@) =~= fresh_outputs_spec(whole, spent@));
                }
            } else {
                proof {
                    assert(!keeps(whole, spent@, whole.len() - 1)) by {
                        assert(sources_of(fresh_outputs_spec(part, spent@)).contains(o@.source));
                        let j = choose|j: int|
                            0 <= j < part.len() && #[trigger] part[j].source == o@.source;
                        assert(whole[j].source == whole.last().source);
                    }
                    assert(outs_v(v@) =~= fresh_outputs_spec(whole, spent@));
                }
            }
        } else {
            proof {
                assert(!keeps(whole, spent@, whole.len() - 1));
                assert(outs_v(v@) =~= fresh_outputs_spec(whole, spent@));
            }
        }
        i += 1;
    }
    proof {
        assert(outputs@.take(outputs@.len() as int) =~= outputs@);
    }
    v
}

/// A contiguous slice of outputs is worth part of the whole: never more,
/// never a negative amount.
pub proof fn lemma_sum_subrange_le(s: Seq<OutputModel>, lo: int, hi: int)
    requires
        forall|i: int| 0 <= i < s.len() ==> #[trigger] s[i].amount >= 0,
        0 <= lo <= hi <= s.len(),
    ensures
        0 <= sum_amounts(s.subrange(lo, hi)) <= sum_amounts(s),
{
    assert(s =~= s.take(lo) + s.subrange(lo, hi) + s.skip(hi));
    lemma_sum_concat(s.take(lo) + s.subrange(lo, hi), s.skip(hi));
    lemma_sum_concat(s.take(lo), s.subrange(lo, hi));
    assert(forall|i: int| 0 <= i < s.take(lo).len() ==> #[trigger] s.take(lo)[i].amount >= 0);
    assert(forall|i: int|
        0 <= i < s.subrange(lo, hi).len() ==> #[trigger] s.subrange(lo, hi)[i].amount >= 0);
    assert(forall|i: int| 0 <= i < s.skip(hi).len() ==> #[trigger] s.skip(hi)[i].amount >= 0);
    lemma_sum_nonneg(s.take(lo));
    lemma_sum_nonneg(s.subrange(lo, hi));
    lemma_sum_nonneg(s.skip(hi));
}

} // verus!
