//! The ignore index: an immutable set of identifiers, optionally compared
//! only on their leading hex digits, built once before resolution starts.

use vstd::prelude::*;
use crate::ident::{
    spec_mask, spec_parse_id, spec_leading, mask_id, parse_id, lemma_mask_idempotent,
    lemma_mask_eq_iff_leading_eq,
};

verus! {

/// Read-only set of identifiers to exclude from output, with an optional
/// truncation width in hex digits.
pub struct IgnoreIndex {
    ids: Vec<u128>,
    width: Option<usize>,
}

/// Zero-extend a source line to 32 hex digits: entries shorter than a full
/// encoding stand for their leading digits, so zeros are appended on the
/// right and magnitude comparisons stay correct.
pub open spec fn spec_pad(line: Seq<u8>) -> Seq<u8> {
    if line.len() <= 32 {
        line + Seq::new((32 - line.len()) as nat, |i: int| 48u8)
    } else {
        line
    }
}

/// The stored form of one source line: parse it (zero-extended when a
/// truncation width is set) and reduce it to its leading digits.
pub open spec fn spec_load_entry(line: Seq<u8>, width: Option<usize>) -> Option<u128> {
    match width {
        None => spec_parse_id(line),
        Some(w) => match spec_parse_id(spec_pad(line)) {
            Some(v) => Some(v & spec_mask(w as int)),
            None => None,
        },
    }
}

impl IgnoreIndex {
    /// The truncation width, if one is configured.
    pub closed spec fn spec_width(self) -> Option<usize> {
        self.width
    }

    /// The stored (already truncated) identifiers.
    pub closed spec fn spec_ids(self) -> Seq<u128> {
        self.ids@
    }

    /// A configured width lies in range and every stored entry is already
    /// reduced to its leading digits.
    pub open spec fn wf(self) -> bool {
        match self.spec_width() {
            Some(w) => 1 <= w <= 32 && forall|i: int|
                0 <= i < self.spec_ids().len() ==> #[trigger] self.spec_ids()[i] == (
                self.spec_ids()[i] & spec_mask(w as int)),
            None => true,
        }
    }

    /// The key an identifier is looked up under: the identifier itself in
    /// exact mode, its leading digits in truncated mode.
    pub open spec fn spec_key(self, id: u128) -> u128 {
        match self.spec_width() {
            Some(w) => id & spec_mask(w as int),
            None => id,
        }
    }

    /// Whether an identifier is ignored.
    pub open spec fn spec_ignored(self, id: u128) -> bool {
        self.spec_ids().contains(self.spec_key(id))
    }

    /// An empty index in exact mode: nothing is ignored.
    pub fn empty() -> (r: IgnoreIndex)
        ensures
            r.wf(),
            r.spec_width() is None,
            r.spec_ids() == Seq::<u128>::empty(),
            forall|id: u128| !r.spec_ignored(id),
    {
        IgnoreIndex { ids: Vec::new(), width: None }
    }

    /// Build the index from source lines. Fails fast on the first malformed
    /// line, returning its position; succeeds exactly when every line parses.
    pub fn build(lines: &Vec<Vec<u8>>, width: Option<usize>) -> (r: Result<IgnoreIndex, usize>)
        requires
            width matches Some(w) ==> 1 <= w <= 32,
        ensures
            r matches Ok(ix) ==> {
                &&& ix.wf()
                &&& ix.spec_width() == width
                &&& ix.spec_ids() =~= Seq::new(
                    lines@.len(),
                    |i: int| spec_load_entry(lines@[i]@, width)->Some_0,
                )
                &&& forall|i: int|
                    0 <= i < lines@.len() ==> #[trigger] spec_load_entry(lines@[i]@, width)
                        is Some
            },
            r matches Err(i) ==> i < lines@.len() && spec_load_entry(lines@[i as int]@, width)
                is None && forall|j: int|
                0 <= j < i ==> #[trigger] spec_load_entry(lines@[j]@, width) is Some,
    {
        let mut ids: Vec<u128> = Vec::new();
        let mut i: usize = 0;
        while i < lines.len()
            invariant
                width matches Some(w) ==> 1 <= w <= 32,
                0 <= i <= lines@.len(),
                ids@.len() == i,
                forall|j: int|
                    0 <= j < i ==> #[trigger] spec_load_entry(lines@[j]@, width) is Some,
                forall|j: int|
                    0 <= j < i ==> ids@[j] == spec_load_entry(
                        lines@[j]@,
                        width,
                    )->Some_0,
                forall|j: int|
                    0 <= j < i && width is Some ==> #[trigger] ids@[j] == (ids@[j] & spec_mask(
                        width->Some_0 as int,
                    )),
            decreases lines@.len() - i,
        {
            let line = &lines[i];
            let parsed = match width {
                None => parse_id(line),
                Some(_) => {
                    let mut padded: Vec<u8> = Vec::new();
                    let mut j: usize = 0;
                    while j < line.len()
                        invariant
                            0 <= j <= line@.len(),
                            padded@ =~= line@.take(j as int),
                        decreases line@.len() - j,
                    {
                        padded.push(line[j]);
                        j = j + 1;
                    }
                    proof {
                        assert(padded@ =~= line@);
                    }
                    while padded.len() < 32
                        invariant
                            padded@.len() >= line@.len(),
                            line@.len() <= 32 ==> padded@.len() <= 32 && padded@ =~= line@
                                + Seq::new((padded@.len() - line@.len()) as nat, |k: int| 48u8),
                            line@.len() > 32 ==> padded@ =~= line@,
                        decreases 32 - padded@.len(),
                    {
                        padded.push(48);
                        proof {
                            assert(line@.len() <= 32 ==> padded@ =~= line@ + Seq::new(
                                (padded@.len() - line@.len()) as nat,
                                |k: int| 48u8,
                            ));
                        }
                    }
                    proof {
                        assert(padded@ =~= spec_pad(line@));
                    }
                    parse_id(&padded)
                },
            };
            match parsed {
                Some(v) => {
                    let stored = match width {
                        Some(w) => mask_id(v, w),
                        None => v,
                    };
                    proof {
                        if width is Some {
                            lemma_mask_idempotent(v, width->Some_0 as int);
                        }
                    }
                    ids.push(stored);
                },
                None => {
                    return Err(i);
                },
            }
            i = i + 1;
        }
        Ok(IgnoreIndex { ids, width })
    }

    /// Membership query: exact in exact mode, on leading digits in
    /// truncated mode.
    pub fn ignored(&self, id: u128) -> (r: bool)
        requires
            self.wf(),
        ensures
            r == self.spec_ignored(id),
    {
        let key = match self.width {
            Some(w) => mask_id(id, w),
            None => id,
        };
        let mut i: usize = 0;
        while i < self.ids.len()
            invariant
                0 <= i <= self.ids@.len(),
                key == self.spec_key(id),
                forall|j: int| 0 <= j < i ==> self.ids@[j] != key,
            decreases self.ids@.len() - i,
        {
            if self.ids[i] == key {
                return true;
            }
            i = i + 1;
        }
        false
    }
}

/// With a truncation width configured, an identifier that shares its
/// leading `w` hex digits with a stored entry is ignored, whatever its
/// remaining digits hold.
pub proof fn lemma_leading_match_is_ignored(ix: IgnoreIndex, a: u128, e: u128)
    requires
        ix.wf(),
        ix.spec_ids().contains(e),
        ix.spec_width() matches Some(w) && spec_leading(a, w as int) == spec_leading(e, w as int),
    ensures
        ix.spec_ignored(a),
{
    let w = ix.spec_width()->Some_0 as int;
    lemma_mask_eq_iff_leading_eq(a, e, w);
    let j = choose|j: int| 0 <= j < ix.spec_ids().len() && ix.spec_ids()[j] == e;
    assert(ix.spec_ids()[j] == ix.spec_ids()[j] & spec_mask(w));
    assert(ix.spec_key(a) == e);
}

/// With a truncation width configured, two identifiers that share their
/// leading `w` hex digits are either both ignored or both not.
pub proof fn lemma_truncated_match(ix: IgnoreIndex, a: u128, b: u128)
    requires
        ix.wf(),
        ix.spec_width() matches Some(w) && spec_leading(a, w as int) == spec_leading(b, w as int),
    ensures
        ix.spec_ignored(a) == ix.spec_ignored(b),
{
    let w = ix.spec_width()->Some_0 as int;
    lemma_mask_eq_iff_leading_eq(a, b, w);
}

} // verus!
