//! The batch resolver's pure halves: encoding one batch of names as the
//! JSON array the remote service accepts, and decoding a response body into
//! resolved (identifier, name) pairs. The network call itself lives outside
//! the library; a failed or malformed exchange is surfaced as `None` and the
//! run continues.

use vstd::prelude::*;
use crate::ident::spec_parse_id;
use crate::ident::parse_id;
use crate::plan::BATCH_SIZE;
use crate::plan::copy_bytes;

verus! {

/// The JSON array text that serialising a list of names produces.
pub uninterp spec fn json_names_of(names: Seq<Seq<u8>>) -> Seq<char>;

/// Relies on serde_json::to_string: serialising a vector of strings is a
/// function of the names alone, and cannot fail for string data.
#[verifier::external_body]
fn json_encode_names(names: &Vec<Vec<u8>>) -> (r: String)
    ensures
        r@ == json_names_of(names.deep_view()),
{
    let strs: Vec<String> = names.iter().map(|b| String::from_utf8_lossy(b).into_owned()).collect();
    serde_json::to_string(&strs).unwrap_or_default()
}

/// Encode one batch of names as the body of one remote call. A batch larger
/// than [`BATCH_SIZE`] is a programming error, not a recoverable condition.
pub fn encode_batch(names: &Vec<Vec<u8>>) -> (r: String)
    requires
        names@.len() <= BATCH_SIZE,
    ensures
        r@ == json_names_of(names.deep_view()),
{
    json_encode_names(names)
}

/// The (identifier text, name) fields a response body carries: `None` unless
/// the body is a JSON array of objects whose `id` and `name` fields are both
/// strings.
pub uninterp spec fn json_entries_of(body: Seq<char>) -> Option<Seq<(Seq<u8>, Seq<u8>)>>;

/// Relies on serde_json::from_str, Value::as_array, Value::get and
/// Value::as_str: what fields a body parses to is a function of the body
/// alone, and none of these calls panics on any input.
#[verifier::external_body]
fn json_entries(body: &str) -> (r: Option<Vec<(Vec<u8>, Vec<u8>)>>)
    ensures
        r matches Some(es) ==> json_entries_of(body@) == Some(es.deep_view()),
        r is None ==> json_entries_of(body@) is None,
{
    let v: serde_json::Value = serde_json::from_str(body).ok()?;
    let arr = v.as_array()?;
    let mut es: Vec<(Vec<u8>, Vec<u8>)> = Vec::new();
    for e in arr {
        let id = e.get("id")?.as_str()?;
        let name = e.get("name")?.as_str()?;
        es.push((id.as_bytes().to_vec(), name.as_bytes().to_vec()));
    }
    Some(es)
}

/// The resolved pairs an entry list denotes: each identifier text parsed to
/// its value, paired with its name; `None` when any identifier text is
/// malformed.
pub open spec fn spec_decode_entries(entries: Seq<(Seq<u8>, Seq<u8>)>) -> Option<
    Seq<(u128, Seq<u8>)>,
>
    decreases entries.len(),
{
    if entries.len() == 0 {
        Some(Seq::empty())
    } else {
        match (spec_decode_entries(entries.drop_last()), spec_parse_id(entries.last().0)) {
            (Some(s), Some(id)) => Some(s.push((id, entries.last().1))),
            _ => None,
        }
    }
}

proof fn lemma_decode_bad(entries: Seq<(Seq<u8>, Seq<u8>)>, i: int)
    requires
        0 <= i < entries.len(),
        spec_parse_id(entries[i].0) is None,
    ensures
        spec_decode_entries(entries) is None,
    decreases entries.len(),
{
    if i < entries.len() - 1 {
        lemma_decode_bad(entries.drop_last(), i);
    }
}

spec fn deep_of_pairs(s: Seq<(u128, Vec<u8>)>) -> Seq<(u128, Seq<u8>)> {
    Seq::new(s.len(), |i: int| s[i].deep_view())
}

proof fn lemma_pairs_deep(v: &Vec<(u128, Vec<u8>)>)
    ensures
        v.deep_view() == deep_of_pairs(v@),
{
    assert(v.deep_view() =~~= deep_of_pairs(v@));
}

proof fn lemma_pairs_deep_push(s: Seq<(u128, Vec<u8>)>, x: (u128, Vec<u8>))
    ensures
        deep_of_pairs(s.push(x)) =~~= deep_of_pairs(s).push((x.0, x.1@)),
{
    let a = deep_of_pairs(s.push(x));
    let b = deep_of_pairs(s).push((x.0, x.1@));
    assert forall|j: int| 0 <= j < a.len() implies a[j] == b[j] by {
        if j < s.len() {
            assert(s.push(x)[j] == s[j]);
        } else {
            assert(s.push(x)[j] == x);
            assert(x.1.deep_view() =~= x.1@);
        }
    }
    assert(a =~~= b);
}

/// Decode an entry list into resolved pairs, exactly as
/// [`spec_decode_entries`] states: `None` exactly when some identifier text
/// is malformed.
pub fn decode_entries(entries: &Vec<(Vec<u8>, Vec<u8>)>) -> (r: Option<Vec<(u128, Vec<u8>)>>)
    ensures
        r matches Some(ps) ==> spec_decode_entries(entries.deep_view()) == Some(ps.deep_view()),
        r is None ==> spec_decode_entries(entries.deep_view()) is None,
{
    let ghost ev = entries.deep_view();
    let mut out: Vec<(u128, Vec<u8>)> = Vec::new();
    let mut i: usize = 0;
    proof {
        assert(ev.take(0) =~= Seq::<(Seq<u8>, Seq<u8>)>::empty());
        lemma_pairs_deep(&out);
        assert(out.deep_view() =~~= Seq::<(u128, Seq<u8>)>::empty());
    }
    while i < entries.len()
        invariant
            0 <= i <= entries@.len(),
            ev == entries.deep_view(),
            spec_decode_entries(ev.take(i as int)) == Some(out.deep_view()),
        decreases entries@.len() - i,
    {
        let e = &entries[i];
        proof {
            assert(ev[i as int] == entries@[i as int].deep_view());
            assert(ev[i as int].0 =~= entries@[i as int].0@);
            assert(ev[i as int].1 =~= entries@[i as int].1@);
        }
        match parse_id(&e.0) {
            Some(id) => {
                let name = copy_bytes(&e.1);
                let ghost oprev = out@;
                let ghost odeep = out.deep_view();
                proof {
                    lemma_pairs_deep(&out);
                }
                out.push((id, name));
                proof {
                    lemma_pairs_deep(&out);
                    lemma_pairs_deep_push(oprev, (id, name));
                    assert(out.deep_view() =~~= odeep.push((id, ev[i as int].1)));
                    assert(ev.take(i + 1).drop_last() =~= ev.take(i as int));
                    assert(ev.take(i + 1).last() == ev[i as int]);
                    assert(spec_decode_entries(ev.take(i + 1)) == Some(out.deep_view()));
                }
                i = i + 1;
            },
            None => {
                proof {
                    lemma_decode_bad(ev, i as int);
                }
                return None;
            },
        }
    }
    proof {
        assert(ev.take(entries@.len() as int) =~= ev);
    }
    Some(out)
}

/// Decode one response body. A well-formed body — a JSON array of objects
/// carrying string `id` and `name` fields, every `id` a well-formed
/// identifier — yields exactly its pairs, in order; anything else yields
/// `None`, which the caller records as a failed batch.
pub fn decode_response(body: &str) -> (r: Option<Vec<(u128, Vec<u8>)>>)
    ensures
        r matches Some(ps) ==> json_entries_of(body@) matches Some(es) && spec_decode_entries(es)
            == Some(ps.deep_view()),
        r is None ==> json_entries_of(body@) is None || spec_decode_entries(
            json_entries_of(body@)->Some_0,
        ) is None,
{
    match json_entries(body) {
        None => None,
        Some(es) => decode_entries(&es),
    }
}

} // verus!
