//! The text form of an index: a JSON document holding its two bucket lists.

use vstd::prelude::*;
use crate::index::{decoded, lemma_records_round_trip, FileCache};
use crate::multimap::{records_view, Record};

verus! {

#[verifier::external_type_specification]
#[verifier::external_body]
pub struct ExJsonError(serde_json::Error);

/// The JSON text of a pair of bucket lists.
pub uninterp spec fn json_text(
    names: Seq<(Seq<char>, Seq<Seq<char>>)>,
    exts: Seq<(Seq<char>, Seq<Seq<char>>)>,
) -> Seq<char>;

/// The pair of bucket lists that a JSON text parses as, if any.
pub uninterp spec fn json_records(text: Seq<char>) -> Option<
    (Seq<(Seq<char>, Seq<Seq<char>>)>, Seq<(Seq<char>, Seq<Seq<char>>)>),
>;

/// Relies on serde_json::to_string: it succeeds on a value holding no map, written
/// to memory; the text depends on the two bucket lists alone; and
/// serde_json::from_str reads that text back as the same two lists, strings
/// being escaped and unescaped exactly.
#[verifier::external_body]
fn json_encode(names: &Vec<Record>, exts: &Vec<Record>) -> (r: Result<String, serde_json::Error>)
    ensures
        r is Ok,
        r matches Ok(t) ==> t@ == json_text(records_view(names@), records_view(exts@)),
        r matches Ok(t) ==> json_records(t@) == Some((records_view(names@), records_view(exts@))),
{
    serde_json::to_string(&(names, exts))
}

/// Relies on serde_json::from_str: whether the text parses as a pair of bucket
/// lists, and as which, depends on the text alone.
#[verifier::external_body]
fn json_decode(text: &str) -> (r: Result<(Vec<Record>, Vec<Record>), serde_json::Error>)
    ensures
        r is Ok <==> json_records(text@) is Some,
        r matches Ok(p) ==> json_records(text@) == Some((records_view(p.0@), records_view(p.1@))),
{
    serde_json::from_str(text)
}

/// The text form of `cache`, to be written to the cache file. Reading it back
/// with `decode` gives the same index.
pub fn encode(cache: &FileCache) -> (r: String)
    requires
        cache.wf(),
    ensures
        r@ == json_text(cache.records_view().0, cache.records_view().1),
        json_records(r@) == Some(cache.records_view()),
        decoded(cache.records_view().0, cache.records_view().1) == Some(cache@),
{
    proof {
        lemma_records_round_trip(cache);
    }
    match json_encode(cache.name_records(), cache.extension_records()) {
        Ok(t) => t,
        Err(_) => {
            proof {
                assert(false);
            }
            String::new()
        },
    }
}

/// The index held by the text of a cache file, or `None` where the text is not
/// a well-formed index; the caller then builds the index afresh.
pub fn decode(text: &str) -> (r: Option<FileCache>)
    ensures
        r is Some <==> (json_records(text@) matches Some(p) && decoded(p.0, p.1) is Some),
        r matches Some(c) ==> (c.wf() && (json_records(text@) matches Some(p) && Some(c@)
            == decoded(p.0, p.1))),
{
    match json_decode(text) {
        Ok((names, exts)) => FileCache::from_records(names, exts),
        Err(_) => None,
    }
}

/// Whether the index that was loaded must be rebuilt by a walk: where none
/// could be loaded, or where it indexes no file.
pub fn needs_rebuild(loaded: &Option<FileCache>) -> (r: bool)
    requires
        loaded matches Some(c) ==> c.wf(),
    ensures
        r == match loaded {
            Some(c) => c@.0.dom() == Set::<Seq<char>>::empty(),
            None => true,
        },
{
    match loaded {
        Some(c) => c.is_empty(),
        None => true,
    }
}

} // verus!
