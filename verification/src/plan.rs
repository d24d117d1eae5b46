//! Batch planning: expand each candidate of a partition with every suffix,
//! group candidates to bound the expansion's memory, and cut the expansions
//! into bounded batches for the remote service, in dispatch order.

use vstd::prelude::*;
use vstd::arithmetic::div_mod::{lemma_fundamental_div_mod, lemma_fundamental_div_mod_converse};

verus! {

/// Candidates are expanded in groups of this many, bounding memory.
pub const GROUP_SIZE: usize = 100;

/// A batch submitted to the remote service never exceeds this many names.
pub const BATCH_SIZE: usize = 10;

/// One candidate expanded with every suffix, in suffix order.
pub open spec fn spec_expand_one(c: Seq<u8>, sufs: Seq<Seq<u8>>) -> Seq<Seq<u8>>
    decreases sufs.len(),
{
    if sufs.len() == 0 {
        Seq::empty()
    } else {
        spec_expand_one(c, sufs.drop_last()).push(c + sufs.last())
    }
}

/// Every candidate of a group expanded with every suffix, candidates outer,
/// suffixes inner.
pub open spec fn spec_expand_group(g: Seq<Seq<u8>>, sufs: Seq<Seq<u8>>) -> Seq<Seq<u8>>
    decreases g.len(),
{
    if g.len() == 0 {
        Seq::empty()
    } else {
        spec_expand_group(g.drop_last(), sufs) + spec_expand_one(g.last(), sufs)
    }
}

/// A sequence cut into consecutive chunks of `size`, the last possibly
/// shorter, none empty.
pub open spec fn spec_chunks(s: Seq<Seq<u8>>, size: nat) -> Seq<Seq<Seq<u8>>>
    decreases s.len(),
    when size >= 1
{
    if s.len() == 0 {
        Seq::empty()
    } else if s.len() <= size {
        seq![s]
    } else {
        seq![s.take(size as int)] + spec_chunks(s.skip(size as int), size)
    }
}

/// The names of a run of batches, in order.
pub open spec fn spec_concat(bs: Seq<Seq<Seq<u8>>>) -> Seq<Seq<u8>>
    decreases bs.len(),
{
    if bs.len() == 0 {
        Seq::empty()
    } else {
        bs.first() + spec_concat(bs.drop_first())
    }
}

pub proof fn lemma_concat_add(a: Seq<Seq<Seq<u8>>>, b: Seq<Seq<Seq<u8>>>)
    ensures
        spec_concat(a + b) == spec_concat(a) + spec_concat(b),
    decreases a.len(),
{
    if a.len() == 0 {
        assert(a + b =~= b);
        assert(spec_concat(a) + spec_concat(b) =~= spec_concat(b));
    } else {
        assert((a + b).drop_first() =~= a.drop_first() + b);
        lemma_concat_add(a.drop_first(), b);
        assert(spec_concat(a + b) =~= spec_concat(a) + spec_concat(b));
    }
}

/// Chunking loses and reorders nothing: the chunks concatenate back to the
/// original sequence.
pub proof fn lemma_chunks_concat(s: Seq<Seq<u8>>, size: nat)
    requires
        size >= 1,
    ensures
        spec_concat(spec_chunks(s, size)) == s,
    decreases s.len(),
{
    if s.len() == 0 {
        assert(spec_concat(spec_chunks(s, size)) =~= s);
    } else if s.len() <= size {
        assert(spec_chunks(s, size) == seq![s]);
        assert(seq![s].first() == s);
        assert(seq![s].drop_first() =~= Seq::<Seq<Seq<u8>>>::empty());
        assert(spec_concat(Seq::<Seq<Seq<u8>>>::empty()) == Seq::<Seq<u8>>::empty());
        assert(spec_concat(seq![s]) =~= s);
    } else {
        let rest = spec_chunks(s.skip(size as int), size);
        assert((seq![s.take(size as int)] + rest).first() == s.take(size as int));
        assert((seq![s.take(size as int)] + rest).drop_first() =~= rest);
        lemma_chunks_concat(s.skip(size as int), size);
        assert(s.take(size as int) + s.skip(size as int) =~= s);
    }
}

/// Every chunk holds between one and `size` elements.
pub proof fn lemma_chunks_bounds(s: Seq<Seq<u8>>, size: nat)
    requires
        size >= 1,
    ensures
        forall|i: int|
            0 <= i < spec_chunks(s, size).len() ==> 1 <= #[trigger] spec_chunks(s, size)[i].len()
                <= size,
    decreases s.len(),
{
    if s.len() == 0 {
    } else if s.len() <= size {
    } else {
        lemma_chunks_bounds(s.skip(size as int), size);
        assert forall|i: int| 0 <= i < spec_chunks(s, size).len() implies 1 <= #[trigger] spec_chunks(
            s,
            size,
        )[i].len() <= size by {
            if i > 0 {
                assert(spec_chunks(s, size)[i] == spec_chunks(s.skip(size as int), size)[i - 1]);
            }
        }
    }
}

/// Expansion distributes over splitting a partition into groups.
pub proof fn lemma_expand_group_add(a: Seq<Seq<u8>>, b: Seq<Seq<u8>>, sufs: Seq<Seq<u8>>)
    ensures
        spec_expand_group(a + b, sufs) == spec_expand_group(a, sufs) + spec_expand_group(b, sufs),
    decreases b.len(),
{
    if b.len() == 0 {
        assert(a + b =~= a);
        assert(spec_expand_group(a, sufs) + spec_expand_group(b, sufs) =~= spec_expand_group(
            a,
            sufs,
        ));
    } else {
        assert((a + b).drop_last() =~= a + b.drop_last());
        assert((a + b).last() == b.last());
        lemma_expand_group_add(a, b.drop_last(), sufs);
        assert(spec_expand_group(a + b, sufs) =~= spec_expand_group(a, sufs) + spec_expand_group(
            b,
            sufs,
        ));
    }
}

/// The worker count clamped to at least one and at most the candidate count.
pub open spec fn spec_clamped(n: nat, threads: nat) -> nat
    recommends
        n >= 1,
{
    if threads < 1 {
        1
    } else if threads > n {
        n
    } else {
        threads
    }
}

/// The size of each worker's partition.
pub open spec fn spec_part_size(n: nat, threads: nat) -> nat
    recommends
        n >= 1,
{
    n / spec_clamped(n, threads)
}

/// The candidate set cut into per-worker partitions.
pub open spec fn spec_partitions(cands: Seq<Seq<u8>>, threads: nat) -> Seq<Seq<Seq<u8>>> {
    if cands.len() == 0 {
        Seq::empty()
    } else {
        spec_chunks(cands, spec_part_size(cands.len(), threads))
    }
}

/// The batches one partition dispatches: its groups' expansions, each cut
/// into batches, in order.
pub open spec fn spec_plan_groups(groups: Seq<Seq<Seq<u8>>>, sufs: Seq<Seq<u8>>) -> Seq<
    Seq<Seq<u8>>,
>
    decreases groups.len(),
{
    if groups.len() == 0 {
        Seq::empty()
    } else {
        spec_plan_groups(groups.drop_last(), sufs) + spec_chunks(
            spec_expand_group(groups.last(), sufs),
            BATCH_SIZE as nat,
        )
    }
}

pub open spec fn spec_plan_part(part: Seq<Seq<u8>>, sufs: Seq<Seq<u8>>) -> Seq<Seq<Seq<u8>>> {
    spec_plan_groups(spec_chunks(part, GROUP_SIZE as nat), sufs)
}

pub open spec fn spec_plan_parts(parts: Seq<Seq<Seq<u8>>>, sufs: Seq<Seq<u8>>) -> Seq<
    Seq<Seq<u8>>,
>
    decreases parts.len(),
{
    if parts.len() == 0 {
        Seq::empty()
    } else {
        spec_plan_parts(parts.drop_last(), sufs) + spec_plan_part(parts.last(), sufs)
    }
}

/// Every batch of the whole run, in dispatch order.
pub open spec fn spec_plan(cands: Seq<Seq<u8>>, sufs: Seq<Seq<u8>>, threads: nat) -> Seq<
    Seq<Seq<u8>>,
> {
    spec_plan_parts(spec_partitions(cands, threads), sufs)
}

/// The element views of a list of byte strings.
pub open spec fn deep_of_words(s: Seq<Vec<u8>>) -> Seq<Seq<u8>> {
    Seq::new(s.len(), |i: int| s[i].deep_view())
}

/// The element views of a list of batches.
pub open spec fn deep_of_batches(s: Seq<Vec<Vec<u8>>>) -> Seq<Seq<Seq<u8>>> {
    Seq::new(s.len(), |i: int| s[i].deep_view())
}

pub proof fn lemma_words_deep(v: &Vec<Vec<u8>>)
    ensures
        v.deep_view() == deep_of_words(v@),
{
    assert(v.deep_view() =~~= deep_of_words(v@));
}

pub proof fn lemma_batches_deep(v: &Vec<Vec<Vec<u8>>>)
    ensures
        v.deep_view() == deep_of_batches(v@),
{
    assert(v.deep_view() =~~= deep_of_batches(v@));
}

pub proof fn lemma_words_deep_push(s: Seq<Vec<u8>>, x: Vec<u8>)
    ensures
        deep_of_words(s.push(x)) =~~= deep_of_words(s).push(x@),
{
    let a = deep_of_words(s.push(x));
    let b = deep_of_words(s).push(x@);
    assert forall|j: int| 0 <= j < a.len() implies a[j] == b[j] by {
        if j < s.len() {
            assert(s.push(x)[j] == s[j]);
        } else {
            assert(s.push(x)[j] == x);
            assert(x.deep_view() =~= x@);
        }
    }
    assert(a =~~= b);
}

pub proof fn lemma_batches_deep_push(s: Seq<Vec<Vec<u8>>>, x: Vec<Vec<u8>>)
    ensures
        deep_of_batches(s.push(x)) =~~= deep_of_batches(s).push(x.deep_view()),
{
    let a = deep_of_batches(s.push(x));
    let b = deep_of_batches(s).push(x.deep_view());
    assert forall|j: int| 0 <= j < a.len() implies a[j] == b[j] by {
        if j < s.len() {
            assert(s.push(x)[j] == s[j]);
        } else {
            assert(s.push(x)[j] == x);
        }
    }
    assert(a =~~= b);
}

/// Appending one element to the second operand of a concatenation appends
/// it to the concatenation.
pub proof fn lemma_add_push<T>(a: Seq<T>, b: Seq<T>, x: T)
    ensures
        a + b.push(x) =~= (a + b).push(x),
{
}

/// Copy a byte string.
pub fn copy_bytes(src: &Vec<u8>) -> (r: Vec<u8>)
    ensures
        r@ == src@,
{
    let mut r: Vec<u8> = Vec::new();
    let mut i: usize = 0;
    while i < src.len()
        invariant
            0 <= i <= src@.len(),
            r@ =~= src@.take(i as int),
        decreases src@.len() - i,
    {
        r.push(src[i]);
        i = i + 1;
    }
    proof {
        assert(r@ =~= src@);
    }
    r
}

/// Concatenate two byte strings.
pub fn concat_bytes(a: &Vec<u8>, b: &Vec<u8>) -> (r: Vec<u8>)
    ensures
        r@ == a@ + b@,
{
    let mut r = copy_bytes(a);
    let mut i: usize = 0;
    while i < b.len()
        invariant
            0 <= i <= b@.len(),
            r@ =~= a@ + b@.take(i as int),
        decreases b@.len() - i,
    {
        r.push(b[i]);
        i = i + 1;
    }
    proof {
        assert(r@ =~= a@ + b@);
    }
    r
}

/// Copy a list of byte strings.
pub fn copy_words(src: &Vec<Vec<u8>>) -> (r: Vec<Vec<u8>>)
    ensures
        r.deep_view() == src.deep_view(),
{
    let mut r: Vec<Vec<u8>> = Vec::new();
    let mut i: usize = 0;
    while i < src.len()
        invariant
            0 <= i <= src@.len(),
            r.deep_view() =~~= src.deep_view().take(i as int),
        decreases src@.len() - i,
    {
        let w = copy_bytes(&src[i]);
        let ghost prev = r.deep_view();
        let ghost prevv = r@;
        let ghost wview = w@;
        r.push(w);
        proof {
            assert(r@ == prevv.push(w));
            assert(r@.len() == prevv.len() + 1);
            assert(prev.len() == prevv.len());
            assert forall|j: int| 0 <= j < i + 1 implies #[trigger] r.deep_view()[j]
                == src.deep_view().take(i + 1)[j] by {
                assert(r.deep_view()[j] == r@[j].deep_view());
                if j < i {
                    assert(r@[j] == prevv[j]);
                    assert(prev[j] == prevv[j].deep_view());
                    assert(prev[j] == src.deep_view()[j]);
                } else {
                    assert(r@[j].deep_view() =~= wview);
                    assert(src.deep_view()[j] =~= src@[j]@);
                    assert(wview == src@[i as int]@);
                }
            }
            assert(r.deep_view() =~~= src.deep_view().take(i + 1));
        }
        i = i + 1;
    }
    proof {
        assert(r.deep_view() =~~= src.deep_view());
    }
    r
}

/// Cut a list of words into consecutive chunks of at most `size`.
pub fn chunk_words(words: &Vec<Vec<u8>>, size: usize) -> (r: Vec<Vec<Vec<u8>>>)
    requires
        size >= 1,
    ensures
        r.deep_view() == spec_chunks(words.deep_view(), size as nat),
{
    let ghost full = words.deep_view();
    let mut r: Vec<Vec<Vec<u8>>> = Vec::new();
    let mut i: usize = 0;
    proof {
        assert(full.skip(0) =~= full);
        assert(r.deep_view() =~~= Seq::<Seq<Seq<u8>>>::empty());
        assert(spec_chunks(full, size as nat) =~~= r.deep_view() + spec_chunks(
            full.skip(0),
            size as nat,
        ));
    }
    while i < words.len()
        invariant
            size >= 1,
            0 <= i <= words@.len(),
            full == words.deep_view(),
            spec_chunks(full, size as nat) =~~= r.deep_view() + spec_chunks(
                full.skip(i as int),
                size as nat,
            ),
        decreases words@.len() - i,
    {
        let end: usize = if words.len() - i < size {
            words.len()
        } else {
            i + size
        };
        let mut chunk: Vec<Vec<u8>> = Vec::new();
        let mut j: usize = i;
        while j < end
            invariant
                i <= j <= end <= words@.len(),
                full == words.deep_view(),
                chunk.deep_view() =~~= full.subrange(i as int, j as int),
            decreases end - j,
        {
            let w = copy_bytes(&words[j]);
            let ghost cprev = chunk@;
            let ghost cdeep = chunk.deep_view();
            proof {
                lemma_words_deep(&chunk);
            }
            chunk.push(w);
            proof {
                lemma_words_deep(&chunk);
                lemma_words_deep_push(cprev, w);
                assert(chunk.deep_view() =~~= cdeep.push(w@));
                assert(full[j as int] =~= words@[j as int]@);
                assert(full.subrange(i as int, j as int).push(full[j as int]) =~= full.subrange(
                    i as int,
                    j + 1,
                ));
                assert(chunk.deep_view() =~~= full.subrange(i as int, j + 1));
            }
            j = j + 1;
        }
        proof {
            let rest = full.skip(i as int);
            assert(rest.len() == full.len() - i);
            if rest.len() <= size {
                assert(chunk.deep_view() =~~= rest);
                assert(spec_chunks(rest, size as nat) == seq![rest]);
                assert(full.skip(end as int) =~= Seq::<Seq<u8>>::empty());
                assert(spec_chunks(full.skip(end as int), size as nat) =~~= Seq::<
                    Seq<Seq<u8>>,
                >::empty());
                assert((r.deep_view() + spec_chunks(full.skip(i as int), size as nat)) =~~= (
                r.deep_view().push(chunk.deep_view()) + spec_chunks(
                    full.skip(end as int),
                    size as nat,
                )));
            } else {
                assert(rest.take(size as int) =~= full.subrange(i as int, end as int));
                assert(chunk.deep_view() =~~= rest.take(size as int));
                assert(rest.skip(size as int) =~= full.skip(end as int));
                assert(spec_chunks(rest, size as nat) == seq![rest.take(size as int)]
                    + spec_chunks(rest.skip(size as int), size as nat));
                assert((r.deep_view() + spec_chunks(full.skip(i as int), size as nat)) =~~= (
                r.deep_view().push(chunk.deep_view()) + spec_chunks(
                    full.skip(end as int),
                    size as nat,
                )));
            }
        }
        let ghost rprev = r@;
        let ghost rdeep = r.deep_view();
        proof {
            lemma_batches_deep(&r);
        }
        r.push(chunk);
        proof {
            lemma_batches_deep(&r);
            lemma_batches_deep_push(rprev, chunk);
            assert(r.deep_view() =~~= rdeep.push(chunk.deep_view()));
            assert(spec_chunks(full, size as nat) =~~= r.deep_view() + spec_chunks(
                full.skip(end as int),
                size as nat,
            ));
        }
        i = end;
    }
    proof {
        assert(full.skip(i as int) =~= Seq::<Seq<u8>>::empty());
        assert(spec_chunks(full.skip(i as int), size as nat) =~~= Seq::<Seq<Seq<u8>>>::empty());
        assert(r.deep_view() =~~= spec_chunks(full, size as nat));
    }
    r
}

/// Expand every candidate of a group with every suffix.
pub fn expand_group(group: &Vec<Vec<u8>>, sufs: &Vec<Vec<u8>>) -> (r: Vec<Vec<u8>>)
    ensures
        r.deep_view() == spec_expand_group(group.deep_view(), sufs.deep_view()),
{
    let ghost gv = group.deep_view();
    let ghost sv = sufs.deep_view();
    let mut r: Vec<Vec<u8>> = Vec::new();
    let mut w: usize = 0;
    proof {
        assert(gv.take(0) =~= Seq::<Seq<u8>>::empty());
        assert(r.deep_view() =~~= spec_expand_group(gv.take(0), sv));
    }
    while w < group.len()
        invariant
            0 <= w <= group@.len(),
            gv == group.deep_view(),
            sv == sufs.deep_view(),
            r.deep_view() =~~= spec_expand_group(gv.take(w as int), sv),
        decreases group@.len() - w,
    {
        let mut s: usize = 0;
        proof {
            assert(sv.take(0) =~= Seq::<Seq<u8>>::empty());
        }
        while s < sufs.len()
            invariant
                0 <= s <= sufs@.len(),
                0 <= w < group@.len(),
                gv == group.deep_view(),
                sv == sufs.deep_view(),
                r.deep_view() =~~= spec_expand_group(gv.take(w as int), sv) + spec_expand_one(
                    gv[w as int],
                    sv.take(s as int),
                ),
            decreases sufs@.len() - s,
        {
            proof {
                assert(gv[w as int] =~= group@[w as int]@);
                assert(sv[s as int] =~= sufs@[s as int]@);
            }
            let e = concat_bytes(&group[w], &sufs[s]);
            let ghost rprev = r@;
            let ghost rdeep = r.deep_view();
            proof {
                lemma_words_deep(&r);
                assert(e@ == gv[w as int] + sv[s as int]);
                assert(sv.take(s + 1).drop_last() =~= sv.take(s as int));
                assert(sv.take(s + 1).last() == sv[s as int]);
            }
            r.push(e);
            proof {
                lemma_words_deep(&r);
                lemma_words_deep_push(rprev, e);
                assert(r.deep_view() =~~= rdeep.push(e@));
                assert(spec_expand_one(gv[w as int], sv.take(s + 1)) == spec_expand_one(
                    gv[w as int],
                    sv.take(s as int),
                ).push(gv[w as int] + sv[s as int]));
                lemma_add_push(
                    spec_expand_group(gv.take(w as int), sv),
                    spec_expand_one(gv[w as int], sv.take(s as int)),
                    gv[w as int] + sv[s as int],
                );
                assert(r.deep_view() =~~= spec_expand_group(gv.take(w as int), sv)
                    + spec_expand_one(gv[w as int], sv.take(s + 1)));
            }
            s = s + 1;
        }
        proof {
            assert(sv.take(sufs@.len() as int) =~= sv);
            assert(gv.take(w + 1).drop_last() =~= gv.take(w as int));
            assert(gv.take(w + 1).last() == gv[w as int]);
            assert(r.deep_view() =~~= spec_expand_group(gv.take(w + 1), sv));
        }
        w = w + 1;
    }
    proof {
        assert(gv.take(group@.len() as int) =~= gv);
    }
    r
}

/// Plan every batch of a run: partition the candidates, expand each
/// partition group by group, and cut the expansions into batches of at most
/// [`BATCH_SIZE`] names, in dispatch order.
pub fn plan_batches(cands: &Vec<Vec<u8>>, sufs: &Vec<Vec<u8>>, threads: usize) -> (r: Vec<
    Vec<Vec<u8>>,
>)
    ensures
        r.deep_view() == spec_plan(cands.deep_view(), sufs.deep_view(), threads as nat),
        forall|i: int|
            0 <= i < r.deep_view().len() ==> 1 <= #[trigger] r.deep_view()[i].len()
                <= BATCH_SIZE as int,
{
    let ghost cv = cands.deep_view();
    let ghost sv = sufs.deep_view();
    if cands.len() == 0 {
        let r: Vec<Vec<Vec<u8>>> = Vec::new();
        proof {
            assert(cv.len() == 0);
            assert(r.deep_view() =~~= spec_plan(cv, sv, threads as nat));
        }
        return r;
    }
    let n = cands.len();
    let t: usize = if threads < 1 {
        1
    } else if threads > n {
        n
    } else {
        threads
    };
    let c: usize = n / t;
    proof {
        assert(n / t >= 1) by (nonlinear_arith)
            requires
                1 <= t <= n,
        ;
        assert(c == spec_part_size(cv.len(), threads as nat));
    }
    let parts = chunk_words(cands, c);
    let ghost pv = parts.deep_view();
    let mut r: Vec<Vec<Vec<u8>>> = Vec::new();
    let mut p: usize = 0;
    proof {
        assert(pv.take(0) =~= Seq::<Seq<Seq<u8>>>::empty());
    }
    while p < parts.len()
        invariant
            0 <= p <= parts@.len(),
            pv == parts.deep_view(),
            sv == sufs.deep_view(),
            r.deep_view() =~~= spec_plan_parts(pv.take(p as int), sv),
            forall|i: int|
                0 <= i < r.deep_view().len() ==> 1 <= #[trigger] r.deep_view()[i].len()
                    <= BATCH_SIZE as int,
        decreases parts@.len() - p,
    {
        let groups = chunk_words(&parts[p], GROUP_SIZE);
        let ghost grv = groups.deep_view();
        proof {
            assert(parts@[p as int].deep_view() =~~= pv[p as int]);
            assert(grv == spec_chunks(pv[p as int], GROUP_SIZE as nat));
            assert(grv.take(0) =~= Seq::<Seq<Seq<u8>>>::empty());
        }
        let mut g: usize = 0;
        while g < groups.len()
            invariant
                0 <= g <= groups@.len(),
                0 <= p < parts@.len(),
                pv == parts.deep_view(),
                sv == sufs.deep_view(),
                grv == groups.deep_view(),
                grv == spec_chunks(pv[p as int], GROUP_SIZE as nat),
                r.deep_view() =~~= spec_plan_parts(pv.take(p as int), sv) + spec_plan_groups(
                    grv.take(g as int),
                    sv,
                ),
                forall|i: int|
                    0 <= i < r.deep_view().len() ==> 1 <= #[trigger] r.deep_view()[i].len()
                        <= BATCH_SIZE as int,
            decreases groups@.len() - g,
        {
            let exp = expand_group(&groups[g], sufs);
            proof {
                assert(groups@[g as int].deep_view() =~~= grv[g as int]);
                assert(exp.deep_view() == spec_expand_group(grv[g as int], sv));
            }
            let bs = chunk_words(&exp, BATCH_SIZE);
            let ghost bv = bs.deep_view();
            proof {
                lemma_chunks_bounds(exp.deep_view(), BATCH_SIZE as nat);
                assert(bv.take(0) =~= Seq::<Seq<Seq<u8>>>::empty());
            }
            let ghost base = r.deep_view();
            let mut k: usize = 0;
            while k < bs.len()
                invariant
                    0 <= k <= bs@.len(),
                    bv == bs.deep_view(),
                    r.deep_view() =~~= base + bv.take(k as int),
                    forall|i: int|
                        0 <= i < bv.len() ==> 1 <= #[trigger] bv[i].len() <= BATCH_SIZE as int,
                    forall|i: int|
                        0 <= i < base.len() ==> 1 <= #[trigger] base[i].len() <= BATCH_SIZE as int,
                decreases bs@.len() - k,
            {
                let batch = copy_words(&bs[k]);
                let ghost rprev = r@;
                let ghost rdeep = r.deep_view();
                proof {
                    lemma_batches_deep(&r);
                    assert(batch.deep_view() =~~= bv[k as int]);
                }
                r.push(batch);
                proof {
                    lemma_batches_deep(&r);
                    lemma_batches_deep_push(rprev, batch);
                    assert(r.deep_view() =~~= rdeep.push(bv[k as int]));
                    assert(bv.take(k + 1) =~= bv.take(k as int).push(bv[k as int]));
                    lemma_add_push(base, bv.take(k as int), bv[k as int]);
                    assert(r.deep_view() =~~= base + bv.take(k + 1));
                }
                k = k + 1;
            }
            proof {
                assert(bv.take(bs@.len() as int) =~= bv);
                assert(grv.take(g + 1).drop_last() =~= grv.take(g as int));
                assert(grv.take(g + 1).last() == grv[g as int]);
                assert(r.deep_view() =~~= spec_plan_parts(pv.take(p as int), sv)
                    + spec_plan_groups(grv.take(g + 1), sv));
            }
            g = g + 1;
        }
        proof {
            assert(grv.take(groups@.len() as int) =~= grv);
            assert(pv.take(p + 1).drop_last() =~= pv.take(p as int));
            assert(pv.take(p + 1).last() == pv[p as int]);
            assert(spec_plan_part(pv[p as int], sv) == spec_plan_groups(grv, sv));
            assert(r.deep_view() =~~= spec_plan_parts(pv.take(p + 1), sv));
        }
        p = p + 1;
    }
    proof {
        assert(pv.take(parts@.len() as int) =~= pv);
        assert(pv == spec_partitions(cv, threads as nat));
        assert(r.deep_view() =~~= spec_plan(cv, sv, threads as nat));
    }
    r
}

/// Chunking a sequence of `n` elements into chunks of `size` yields exactly
/// the ceiling of `n / size` chunks.
pub proof fn lemma_chunks_count(s: Seq<Seq<u8>>, size: nat)
    requires
        size >= 1,
    ensures
        spec_chunks(s, size).len() == (s.len() + size - 1) / (size as int),
    decreases s.len(),
{
    let d = size as int;
    let n = s.len() as int;
    if s.len() == 0 {
        lemma_fundamental_div_mod_converse(n + d - 1, d, 0, d - 1);
    } else if s.len() <= size {
        lemma_fundamental_div_mod_converse(n + d - 1, d, 1, n - 1);
    } else {
        lemma_chunks_count(s.skip(d), size);
        lemma_fundamental_div_mod(n - 1, d);
        let q = (n - 1) / d;
        let r = (n - 1) % d;
        assert((q + 1) * d == q * d + d) by (nonlinear_arith);
        lemma_fundamental_div_mod_converse(n + d - 1, d, q + 1, r);
    }
}

proof fn lemma_expand_one_len(c: Seq<u8>, sufs: Seq<Seq<u8>>)
    ensures
        spec_expand_one(c, sufs).len() == sufs.len(),
    decreases sufs.len(),
{
    if sufs.len() > 0 {
        lemma_expand_one_len(c, sufs.drop_last());
    }
}

/// A group of `k` candidates expands to exactly `k * sufs.len()` names.
pub proof fn lemma_expand_group_len(g: Seq<Seq<u8>>, sufs: Seq<Seq<u8>>)
    ensures
        spec_expand_group(g, sufs).len() == g.len() * sufs.len(),
    decreases g.len(),
{
    if g.len() > 0 {
        lemma_expand_group_len(g.drop_last(), sufs);
        lemma_expand_one_len(g.last(), sufs);
        assert((g.len() - 1) * sufs.len() + sufs.len() == g.len() * sufs.len())
            by (nonlinear_arith);
    }
}

/// The closed-form number of batches a run of groups dispatches: each group
/// of `k` candidates expands to `k * nsufs` names and dispatches the ceiling
/// of that count over [`BATCH_SIZE`].
pub open spec fn spec_group_calls(groups: Seq<Seq<Seq<u8>>>, nsufs: nat) -> int
    decreases groups.len(),
{
    if groups.len() == 0 {
        0
    } else {
        spec_group_calls(groups.drop_last(), nsufs) + (groups.last().len() * nsufs + BATCH_SIZE
            - 1) / (BATCH_SIZE as int)
    }
}

proof fn lemma_plan_groups_count(groups: Seq<Seq<Seq<u8>>>, sufs: Seq<Seq<u8>>)
    ensures
        spec_plan_groups(groups, sufs).len() == spec_group_calls(groups, sufs.len()),
    decreases groups.len(),
{
    if groups.len() > 0 {
        lemma_plan_groups_count(groups.drop_last(), sufs);
        lemma_expand_group_len(groups.last(), sufs);
        lemma_chunks_count(spec_expand_group(groups.last(), sufs), BATCH_SIZE as nat);
    }
}

/// One partition dispatches exactly the ceiling sum its worker loop
/// implies: over its groups of [`GROUP_SIZE`] candidates, the ceiling of
/// (group size times suffix count) over [`BATCH_SIZE`], independent of how
/// any call turns out.
pub proof fn lemma_partition_call_count(part: Seq<Seq<u8>>, sufs: Seq<Seq<u8>>)
    ensures
        spec_plan_part(part, sufs).len() == spec_group_calls(
            spec_chunks(part, GROUP_SIZE as nat),
            sufs.len(),
        ),
{
    lemma_plan_groups_count(spec_chunks(part, GROUP_SIZE as nat), sufs);
}

/// The closed-form number of batches of a whole run: the per-partition
/// ceiling sums, added over the partitions.
pub open spec fn spec_part_calls(parts: Seq<Seq<Seq<u8>>>, sufs: Seq<Seq<u8>>) -> int
    decreases parts.len(),
{
    if parts.len() == 0 {
        0
    } else {
        spec_part_calls(parts.drop_last(), sufs) + spec_group_calls(
            spec_chunks(parts.last(), GROUP_SIZE as nat),
            sufs.len(),
        )
    }
}

/// The number of batches the whole run dispatches — what the calls-issued
/// counter reaches — in closed form over the partitions.
pub proof fn lemma_run_call_count(cands: Seq<Seq<u8>>, sufs: Seq<Seq<u8>>, threads: nat)
    ensures
        spec_plan(cands, sufs, threads).len() == spec_part_calls(
            spec_partitions(cands, threads),
            sufs,
        ),
{
    lemma_plan_parts_count(spec_partitions(cands, threads), sufs);
}

proof fn lemma_plan_parts_count(parts: Seq<Seq<Seq<u8>>>, sufs: Seq<Seq<u8>>)
    ensures
        spec_plan_parts(parts, sufs).len() == spec_part_calls(parts, sufs),
    decreases parts.len(),
{
    if parts.len() > 0 {
        lemma_plan_parts_count(parts.drop_last(), sufs);
        lemma_partition_call_count(parts.last(), sufs);
    }
}

/// The number of occurrences of one name in a list of names.
pub open spec fn spec_count(s: Seq<Seq<u8>>, name: Seq<u8>) -> int
    decreases s.len(),
{
    if s.len() == 0 {
        0
    } else {
        spec_count(s.drop_last(), name) + if s.last() == name {
            1int
        } else {
            0int
        }
    }
}

/// The names submitted across every planned batch are exactly the
/// (candidate, suffix) expansions, in order: nothing is lost, invented or
/// repeated by partitioning, grouping or batching.
pub proof fn lemma_plan_covers_expansions(cands: Seq<Seq<u8>>, sufs: Seq<Seq<u8>>, threads: nat)
    ensures
        spec_concat(spec_plan(cands, sufs, threads)) == spec_expand_group(cands, sufs),
{
    if cands.len() == 0 {
        assert(spec_concat(spec_plan(cands, sufs, threads)) =~~= spec_expand_group(cands, sufs));
    } else {
        let size = spec_part_size(cands.len(), threads);
        assert(size >= 1) by (nonlinear_arith)
            requires
                size == cands.len() / spec_clamped(cands.len(), threads),
                1 <= spec_clamped(cands.len(), threads) <= cands.len(),
        ;
        lemma_plan_parts_concat(spec_partitions(cands, threads), sufs);
        lemma_chunks_concat(cands, size);
    }
}

proof fn lemma_plan_groups_concat(groups: Seq<Seq<Seq<u8>>>, sufs: Seq<Seq<u8>>)
    ensures
        spec_concat(spec_plan_groups(groups, sufs)) == spec_expand_group(spec_concat(groups), sufs),
    decreases groups.len(),
{
    if groups.len() == 0 {
        assert(spec_concat(spec_plan_groups(groups, sufs)) =~~= spec_expand_group(
            spec_concat(groups),
            sufs,
        ));
    } else {
        lemma_plan_groups_concat(groups.drop_last(), sufs);
        lemma_concat_add(
            spec_plan_groups(groups.drop_last(), sufs),
            spec_chunks(spec_expand_group(groups.last(), sufs), BATCH_SIZE as nat),
        );
        lemma_chunks_concat(spec_expand_group(groups.last(), sufs), BATCH_SIZE as nat);
        lemma_expand_group_add(spec_concat(groups.drop_last()), groups.last(), sufs);
        assert(groups =~= groups.drop_last().push(groups.last()));
        lemma_concat_last(groups);
    }
}

/// Concatenation taken from the back.
proof fn lemma_concat_last(bs: Seq<Seq<Seq<u8>>>)
    requires
        bs.len() > 0,
    ensures
        spec_concat(bs) == spec_concat(bs.drop_last()) + bs.last(),
{
    assert(bs =~= bs.drop_last() + seq![bs.last()]);
    lemma_concat_add(bs.drop_last(), seq![bs.last()]);
    assert(seq![bs.last()].first() == bs.last());
    assert(seq![bs.last()].drop_first() =~= Seq::<Seq<Seq<u8>>>::empty());
    assert(spec_concat(Seq::<Seq<Seq<u8>>>::empty()) == Seq::<Seq<u8>>::empty());
    assert(spec_concat(seq![bs.last()]) =~= bs.last());
    assert(spec_concat(bs.drop_last() + seq![bs.last()]) == spec_concat(bs.drop_last())
        + spec_concat(seq![bs.last()]));
}

proof fn lemma_plan_parts_concat(parts: Seq<Seq<Seq<u8>>>, sufs: Seq<Seq<u8>>)
    ensures
        spec_concat(spec_plan_parts(parts, sufs)) == spec_expand_group(spec_concat(parts), sufs),
    decreases parts.len(),
{
    if parts.len() == 0 {
        assert(spec_concat(spec_plan_parts(parts, sufs)) =~~= spec_expand_group(
            spec_concat(parts),
            sufs,
        ));
    } else {
        lemma_plan_parts_concat(parts.drop_last(), sufs);
        lemma_concat_add(
            spec_plan_parts(parts.drop_last(), sufs),
            spec_plan_part(parts.last(), sufs),
        );
        lemma_plan_groups_concat(spec_chunks(parts.last(), GROUP_SIZE as nat), sufs);
        lemma_chunks_concat(parts.last(), GROUP_SIZE as nat);
        lemma_expand_group_add(spec_concat(parts.drop_last()), parts.last(), sufs);
        lemma_concat_last(parts);
    }
}

/// Every (candidate, suffix) expansion is submitted in some batch exactly
/// as often as it occurs among the expansions: for a duplicate-free
/// expansion set, exactly once.
pub proof fn lemma_submitted_count(
    cands: Seq<Seq<u8>>,
    sufs: Seq<Seq<u8>>,
    threads: nat,
    name: Seq<u8>,
)
    ensures
        spec_count(spec_concat(spec_plan(cands, sufs, threads)), name) == spec_count(
            spec_expand_group(cands, sufs),
            name,
        ),
{
    lemma_plan_covers_expansions(cands, sufs, threads);
}

} // verus!
