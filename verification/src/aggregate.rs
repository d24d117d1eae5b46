//! Progress counters and the aggregator's per-pair decision: filter each
//! resolved pair against the ignore index, count it, and append accepted
//! identifiers to the output lines.

use vstd::prelude::*;
use crate::ident::lemma_format_injective;
use crate::ident::spec_format_id;
use crate::ident::format_id;
use crate::ignore::IgnoreIndex;
use crate::model::spec_accepted_lines;
use crate::plan::{lemma_words_deep, lemma_words_deep_push};

verus! {

/// The three monotone progress counters: remote calls issued, identifiers
/// returned by the remote service, and identifiers accepted (not ignored)
/// and appended to the output sink. Never reset, never decremented.
pub struct Counters {
    pub calls: u128,
    pub raw: u128,
    pub accepted: u128,
}

impl Counters {
    /// All three counters start at zero.
    pub fn new() -> (r: Counters)
        ensures
            r.calls == 0,
            r.raw == 0,
            r.accepted == 0,
    {
        Counters { calls: 0, raw: 0, accepted: 0 }
    }

    /// Record one attempted remote call, whatever its outcome.
    pub fn record_call(&mut self)
        requires
            old(self).calls < u128::MAX,
        ensures
            final(self).calls == old(self).calls + 1,
            final(self).raw == old(self).raw,
            final(self).accepted == old(self).accepted,
    {
        self.calls = self.calls + 1;
    }

    /// Record `n` identifiers returned by one successful remote call.
    pub fn record_resolved(&mut self, n: usize)
        requires
            old(self).raw + n <= u128::MAX,
        ensures
            final(self).calls == old(self).calls,
            final(self).raw == old(self).raw + n,
            final(self).accepted == old(self).accepted,
    {
        self.raw = self.raw + (n as u128);
    }

    /// Record one identifier accepted and appended to the output.
    pub fn record_accepted(&mut self)
        requires
            old(self).accepted < u128::MAX,
        ensures
            final(self).calls == old(self).calls,
            final(self).raw == old(self).raw,
            final(self).accepted == old(self).accepted + 1,
    {
        self.accepted = self.accepted + 1;
    }

    /// Record the outcome of one batch: the call is counted whatever
    /// happened; only a successful call counts its returned identifiers.
    pub fn record_batch(&mut self, resp: &Option<Vec<(u128, Vec<u8>)>>)
        requires
            old(self).calls < u128::MAX,
            old(self).raw + (match resp {
                Some(v) => v@.len(),
                None => 0,
            }) <= u128::MAX,
        ensures
            final(self).calls == old(self).calls + 1,
            final(self).raw == old(self).raw + (match resp {
                Some(v) => v@.len() as int,
                None => 0int,
            }),
            final(self).accepted == old(self).accepted,
    {
        self.record_call();
        match resp {
            Some(v) => self.record_resolved(v.len()),
            None => (),
        }
    }
}

/// The aggregator's decision for one resolved pair: an ignored identifier
/// changes nothing; an accepted one is counted and its canonical encoding
/// appended to the output lines.
pub fn process_pair(
    index: &IgnoreIndex,
    counters: &mut Counters,
    output: &mut Vec<Vec<u8>>,
    id: u128,
) -> (accepted: bool)
    requires
        index.wf(),
        old(counters).accepted < u128::MAX,
    ensures
        accepted == !index.spec_ignored(id),
        final(counters).calls == old(counters).calls,
        final(counters).raw == old(counters).raw,
        accepted ==> final(counters).accepted == old(counters).accepted + 1
            && final(output).deep_view() == old(output).deep_view().push(spec_format_id(id)),
        !accepted ==> final(counters).accepted == old(counters).accepted && *final(output)
            == *old(output),
{
    if index.ignored(id) {
        false
    } else {
        counters.record_accepted();
        let line = format_id(id);
        let ghost oprev = output@;
        let ghost odeep = output.deep_view();
        proof {
            lemma_words_deep(output);
        }
        output.push(line);
        proof {
            lemma_words_deep(output);
            lemma_words_deep_push(oprev, line);
            assert(output.deep_view() =~~= odeep.push(spec_format_id(id)));
        }
        true
    }
}

/// An identifier stored in the ignore index in exact mode is never
/// appended: the pair carrying it contributes no output line, so a run
/// that receives it appends exactly what a run without it appends.
pub proof fn lemma_ignored_pair_adds_nothing(
    ix: IgnoreIndex,
    pairs: Seq<(u128, Seq<u8>)>,
    p: (u128, Seq<u8>),
)
    requires
        ix.spec_width() is None,
        ix.spec_ids().contains(p.0),
    ensures
        spec_accepted_lines(ix, pairs.push(p)) == spec_accepted_lines(ix, pairs),
{
    assert(pairs.push(p).drop_last() =~= pairs);
    assert(pairs.push(p).last() == p);
    assert(ix.spec_ignored(p.0));
    assert(spec_accepted_lines(ix, pairs.push(p)) =~~= spec_accepted_lines(ix, pairs));
}

/// In exact mode, an identifier stored in the ignore index never reaches
/// the output sink: no appended line is its encoding, whatever pairs the
/// remote service delivered.
pub proof fn lemma_ignored_never_output(ix: IgnoreIndex, pairs: Seq<(u128, Seq<u8>)>, id: u128)
    requires
        ix.spec_width() is None,
        ix.spec_ids().contains(id),
    ensures
        !spec_accepted_lines(ix, pairs).contains(spec_format_id(id)),
    decreases pairs.len(),
{
    let lines = spec_accepted_lines(ix, pairs);
    if pairs.len() == 0 {
        assert(lines.len() == 0);
    } else {
        lemma_ignored_never_output(ix, pairs.drop_last(), id);
        let rest = spec_accepted_lines(ix, pairs.drop_last());
        let p = pairs.last();
        if !ix.spec_ignored(p.0) {
            assert(p.0 != id);
            if spec_format_id(p.0) == spec_format_id(id) {
                lemma_format_injective(p.0, id);
            }
            assert forall|j: int| 0 <= j < lines.len() implies lines[j] != spec_format_id(id) by {
                if j < rest.len() {
                    assert(lines[j] == rest[j]);
                } else {
                    assert(lines[j] == spec_format_id(p.0));
                }
            }
        } else {
            assert(lines =~= rest);
        }
    }
}

} // verus!
