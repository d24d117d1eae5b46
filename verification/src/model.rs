//! A sequential model of one whole run: plan every batch, hand each batch's
//! outcome (the remote service's pairs, or a transport failure) to the
//! counters, and pass every returned pair through the aggregator.
//!
//! The concurrent system interleaves these steps across workers; the
//! counters' totals and the set of appended lines do not depend on the
//! interleaving, and this model pins them down exactly.

use vstd::prelude::*;
use crate::aggregate::Counters;
use crate::aggregate::process_pair;
use crate::ident::spec_format_id;
use crate::ignore::IgnoreIndex;
use crate::plan::{spec_plan, plan_batches};

verus! {

/// The pairs one batch outcome contributes: none on a transport failure,
/// none for a batch the response list does not cover.
pub open spec fn spec_resp_at(resps: Seq<Option<Seq<(u128, Seq<u8>)>>>, i: int) -> Seq<
    (u128, Seq<u8>),
> {
    if 0 <= i < resps.len() {
        match resps[i] {
            Some(s) => s,
            None => Seq::empty(),
        }
    } else {
        Seq::empty()
    }
}

/// All pairs delivered by the first `n` batches, in order.
pub open spec fn spec_pairs_prefix(resps: Seq<Option<Seq<(u128, Seq<u8>)>>>, n: int) -> Seq<
    (u128, Seq<u8>),
>
    decreases n,
    when n >= 0
{
    if n <= 0 {
        Seq::empty()
    } else {
        spec_pairs_prefix(resps, n - 1) + spec_resp_at(resps, n - 1)
    }
}

/// The output lines a run appends for a stream of pairs: the canonical
/// encoding of each identifier the ignore index does not ignore, in order.
pub open spec fn spec_accepted_lines(ix: IgnoreIndex, pairs: Seq<(u128, Seq<u8>)>) -> Seq<Seq<u8>>
    decreases pairs.len(),
{
    if pairs.len() == 0 {
        Seq::empty()
    } else {
        spec_accepted_lines(ix, pairs.drop_last()) + if !ix.spec_ignored(pairs.last().0) {
            seq![spec_format_id(pairs.last().0)]
        } else {
            Seq::empty()
        }
    }
}

/// A run never appends more lines than it was handed pairs.
pub proof fn lemma_accepted_len(ix: IgnoreIndex, pairs: Seq<(u128, Seq<u8>)>)
    ensures
        spec_accepted_lines(ix, pairs).len() <= pairs.len(),
    decreases pairs.len(),
{
    if pairs.len() > 0 {
        lemma_accepted_len(ix, pairs.drop_last());
    }
}

/// Run the whole pipeline once, sequentially, against given batch outcomes:
/// `responses[i]` is what the remote service answered to the `i`-th planned
/// batch (`None`: transport or decode failure), and batches beyond the list
/// are treated as failed. Returns the final counters and the output lines.
///
/// The calls-issued counter equals the number of planned batches whatever
/// failed; the raw counter counts every returned pair; the accepted counter
/// equals the number of appended lines; and the lines are exactly the
/// non-ignored identifiers, encoded, in delivery order.
pub fn run_model(
    cands: &Vec<Vec<u8>>,
    sufs: &Vec<Vec<u8>>,
    threads: usize,
    index: &IgnoreIndex,
    responses: &Vec<Option<Vec<(u128, Vec<u8>)>>>,
) -> (r: (Counters, Vec<Vec<u8>>))
    requires
        index.wf(),
    ensures
        r.0.calls == spec_plan(cands.deep_view(), sufs.deep_view(), threads as nat).len(),
        r.0.raw == spec_pairs_prefix(
            responses.deep_view(),
            spec_plan(cands.deep_view(), sufs.deep_view(), threads as nat).len() as int,
        ).len(),
        r.1.deep_view() == spec_accepted_lines(
            *index,
            spec_pairs_prefix(
                responses.deep_view(),
                spec_plan(cands.deep_view(), sufs.deep_view(), threads as nat).len() as int,
            ),
        ),
        r.0.accepted == r.1.deep_view().len(),
{
    let batches = plan_batches(cands, sufs, threads);
    let bn: usize = batches.len();
    let ghost rv = responses.deep_view();
    let ghost nb = batches.deep_view().len();
    proof {
        assert(nb == bn as int);
        assert(nb <= 0xffffffffffffffff);
    }
    let mut counters = Counters::new();
    let mut output: Vec<Vec<u8>> = Vec::new();
    let mut i: usize = 0;
    proof {
        assert(output.deep_view() =~~= spec_accepted_lines(*index, spec_pairs_prefix(rv, 0)));
    }
    while i < batches.len()
        invariant
            index.wf(),
            0 <= i <= batches@.len(),
            batches@.len() == nb,
            rv == responses.deep_view(),
            nb <= 0xffffffffffffffff,
            counters.calls == i,
            counters.raw == spec_pairs_prefix(rv, i as int).len(),
            counters.raw <= i * 0x10000000000000000,
            output.deep_view() == spec_accepted_lines(*index, spec_pairs_prefix(rv, i as int)),
            counters.accepted == output.deep_view().len(),
        decreases batches@.len() - i,
    {
        proof {
            assert(i * 0x10000000000000000 + 0x10000000000000000 <= (nb as int)
                * 0x10000000000000000);
            assert((nb as int) * 0x10000000000000000 < u128::MAX) by (nonlinear_arith)
                requires
                    0 <= nb <= 0xffffffffffffffffu128,
            ;
        }
        if i < responses.len() {
            match &responses[i] {
                Some(v) => {
                    let vn: usize = v.len();
                    proof {
                        assert(rv[i as int] == responses@[i as int].deep_view());
                        assert(v@.len() == vn as int);
                        assert(v@.len() <= 0xffffffffffffffff);
                        assert(spec_resp_at(rv, i as int) == v.deep_view());
                        assert(v.deep_view().len() == v@.len());
                    }
                    counters.record_call();
                    counters.record_resolved(vn);
                    let ghost cur = v.deep_view();
                    let ghost base = spec_pairs_prefix(rv, i as int);
                    let mut j: usize = 0;
                    proof {
                        assert(base + cur.take(0) =~= base);
                        lemma_accepted_len(*index, base);
                    }
                    while j < v.len()
                        invariant
                            index.wf(),
                            0 <= j <= v@.len(),
                            cur == v.deep_view(),
                            cur.len() == v@.len(),
                            counters.accepted == output.deep_view().len(),
                            counters.accepted <= counters.raw,
                            counters.raw < u128::MAX,
                            counters.calls == i + 1,
                            counters.raw == base.len() + cur.len(),
                            output.deep_view() == spec_accepted_lines(
                                *index,
                                base + cur.take(j as int),
                            ),
                        decreases v@.len() - j,
                    {
                        let id: u128 = v[j].0;
                        proof {
                            assert(cur[j as int].0 == v@[j as int].0);
                            assert((base + cur.take(j + 1)).drop_last() =~= base + cur.take(
                                j as int,
                            ));
                            assert((base + cur.take(j + 1)).last() == cur[j as int]);
                            lemma_accepted_len(*index, base + cur.take(j as int));
                            assert((base + cur.take(j as int)).len() == base.len() + j);
                        }
                        let acc = process_pair(index, &mut counters, &mut output, id);
                        proof {
                            assert(output.deep_view() =~~= spec_accepted_lines(
                                *index,
                                base + cur.take(j + 1),
                            ));
                        }
                        j = j + 1;
                    }
                    proof {
                        assert(cur.take(cur.len() as int) =~= cur);
                        assert(spec_pairs_prefix(rv, i + 1) == base + spec_resp_at(rv, i as int));
                    }
                },
                None => {
                    proof {
                        assert(spec_resp_at(rv, i as int) =~= Seq::<(u128, Seq<u8>)>::empty());
                        assert(spec_pairs_prefix(rv, i + 1) =~= spec_pairs_prefix(rv, i as int));
                    }
                    counters.record_call();
                },
            }
        } else {
            proof {
                assert(spec_resp_at(rv, i as int) =~= Seq::<(u128, Seq<u8>)>::empty());
                assert(spec_pairs_prefix(rv, i + 1) =~= spec_pairs_prefix(rv, i as int));
            }
            counters.record_call();
        }
        i = i + 1;
    }
    (counters, output)
}

} // verus!
