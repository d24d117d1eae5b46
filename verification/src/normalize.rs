//! Candidate normalization: a candidate is composed only of the allowed
//! name alphabet, bounded in length, and case-folded to lower case. One raw
//! wordlist line either yields exactly one candidate or is dropped.

use vstd::prelude::*;
use crate::plan::{copy_bytes, lemma_words_deep, lemma_words_deep_push};

verus! {

/// Shortest candidate the remote service accepts.
pub const MIN_NAME_LEN: usize = 3;

/// Longest candidate the remote service accepts.
pub const MAX_NAME_LEN: usize = 15;

/// The allowed name alphabet: ASCII letters, digits and underscore.
pub open spec fn spec_is_allowed(b: u8) -> bool {
    (65 <= b <= 90) || (97 <= b <= 122) || (48 <= b <= 57) || b == 95
}

/// Case-fold one byte: upper-case ASCII letters become lower-case.
pub open spec fn spec_fold(b: u8) -> u8 {
    if 65 <= b <= 90 {
        (b + 32) as u8
    } else {
        b
    }
}

/// A line reduced to its allowed bytes, case-folded, in order.
pub open spec fn spec_canon(s: Seq<u8>) -> Seq<u8>
    decreases s.len(),
{
    if s.len() == 0 {
        Seq::empty()
    } else {
        spec_canon(s.drop_last()) + if spec_is_allowed(s.last()) {
            seq![spec_fold(s.last())]
        } else {
            Seq::empty()
        }
    }
}

/// The candidate one raw line yields: its canonical form when that form's
/// length lies within the accepted bounds, nothing otherwise.
pub open spec fn spec_normalize(s: Seq<u8>) -> Option<Seq<u8>> {
    if MIN_NAME_LEN <= spec_canon(s).len() <= MAX_NAME_LEN {
        Some(spec_canon(s))
    } else {
        None
    }
}

/// Normalize one raw wordlist line into a candidate, or drop it.
pub fn normalize_line(line: &Vec<u8>) -> (r: Option<Vec<u8>>)
    ensures
        r matches Some(c) ==> spec_normalize(line@) == Some(c@),
        r is None ==> spec_normalize(line@) is None,
{
    let mut out: Vec<u8> = Vec::new();
    let mut i: usize = 0;
    proof {
        assert(line@.take(0) =~= Seq::<u8>::empty());
        assert(out@ =~= spec_canon(line@.take(0)));
    }
    while i < line.len()
        invariant
            0 <= i <= line@.len(),
            out@ == spec_canon(line@.take(i as int)),
            out@.len() <= i,
        decreases line@.len() - i,
    {
        let b = line[i];
        let allowed = (65 <= b && b <= 90) || (97 <= b && b <= 122) || (48 <= b && b <= 57) || b
            == 95;
        proof {
            assert(line@.take(i + 1).drop_last() =~= line@.take(i as int));
            assert(line@.take(i + 1).last() == line@[i as int]);
        }
        if allowed {
            let f: u8 = if 65 <= b && b <= 90 {
                b + 32
            } else {
                b
            };
            out.push(f);
            proof {
                assert(out@ =~= spec_canon(line@.take(i + 1)));
            }
        } else {
            proof {
                assert(spec_canon(line@.take(i + 1)) =~= spec_canon(line@.take(i as int)));
            }
        }
        i = i + 1;
    }
    proof {
        assert(line@.take(line@.len() as int) =~= line@);
    }
    if out.len() >= MIN_NAME_LEN && out.len() <= MAX_NAME_LEN {
        Some(out)
    } else {
        None
    }
}

/// Byte-string equality.
pub fn bytes_eq(a: &Vec<u8>, b: &Vec<u8>) -> (r: bool)
    ensures
        r == (a@ == b@),
{
    if a.len() != b.len() {
        return false;
    }
    let mut i: usize = 0;
    while i < a.len()
        invariant
            0 <= i <= a@.len(),
            a@.len() == b@.len(),
            forall|j: int| 0 <= j < i ==> a@[j] == b@[j],
        decreases a@.len() - i,
    {
        if a[i] != b[i] {
            return false;
        }
        i = i + 1;
    }
    proof {
        assert(a@ =~= b@);
    }
    true
}

/// A sorted candidate list with consecutive duplicates removed, first of
/// each run kept.
pub open spec fn spec_dedup(s: Seq<Seq<u8>>) -> Seq<Seq<u8>>
    decreases s.len(),
{
    if s.len() <= 1 {
        s
    } else if s.last() == s[s.len() - 2] {
        spec_dedup(s.drop_last())
    } else {
        spec_dedup(s.drop_last()).push(s.last())
    }
}

/// Remove consecutive duplicate candidates.
pub fn dedup_adjacent(v: &Vec<Vec<u8>>) -> (r: Vec<Vec<u8>>)
    ensures
        r.deep_view() == spec_dedup(v.deep_view()),
{
    let ghost vv = v.deep_view();
    let mut r: Vec<Vec<u8>> = Vec::new();
    let mut i: usize = 0;
    proof {
        assert(vv.take(0) =~= Seq::<Seq<u8>>::empty());
        assert(r.deep_view() =~~= spec_dedup(vv.take(0)));
    }
    while i < v.len()
        invariant
            0 <= i <= v@.len(),
            vv == v.deep_view(),
            r.deep_view() == spec_dedup(vv.take(i as int)),
        decreases v@.len() - i,
    {
        proof {
            assert(vv[i as int] =~= v@[i as int]@);
            assert(vv.take(i + 1).drop_last() =~= vv.take(i as int));
            assert(vv.take(i + 1).last() == vv[i as int]);
        }
        let keep: bool = if i == 0 {
            true
        } else {
            proof {
                assert(vv[i - 1] =~= v@[i - 1]@);
                assert(vv.take(i + 1)[i - 1] == vv[i - 1]);
            }
            !bytes_eq(&v[i], &v[i - 1])
        };
        if keep {
            let w = copy_bytes(&v[i]);
            let ghost rprev = r@;
            let ghost rdeep = r.deep_view();
            proof {
                lemma_words_deep(&r);
            }
            r.push(w);
            proof {
                lemma_words_deep(&r);
                lemma_words_deep_push(rprev, w);
                assert(r.deep_view() =~~= rdeep.push(vv[i as int]));
                assert(r.deep_view() =~~= spec_dedup(vv.take(i + 1)));
            }
        } else {
            proof {
                assert(spec_dedup(vv.take(i + 1)) == spec_dedup(vv.take(i as int)));
            }
        }
        i = i + 1;
    }
    proof {
        assert(vv.take(v@.len() as int) =~= vv);
    }
    r
}

} // verus!
