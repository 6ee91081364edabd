use vstd::prelude::*;

use crate::runtime::{Runtime, RuntimeError, RuntimeMetadata, RuntimeMetadataView};

verus! {

/// What `ron` reads from `text` as a map of strings to strings, as its
/// entries in increasing key order; `None` where it does not accept it.
pub uninterp spec fn ron_string_map(text: Seq<char>) -> Option<Seq<(Seq<char>, Seq<char>)>>;

/// The view of a list of entries.
pub open spec fn entries_view(v: Seq<(String, String)>) -> Seq<(Seq<char>, Seq<char>)> {
    v.map_values(|e: (String, String)| (e.0@, e.1@))
}

/// Relies on `ron::from_str` into a `BTreeMap<String, String>`: its result
/// depends on the text alone, and a `BTreeMap` hands its entries out in key order.
#[verifier::external_body]
fn ron_from_str(text: &str) -> (r: Option<Vec<(String, String)>>)
    ensures
        match r {
            Some(v) => ron_string_map(text@) == Some(entries_view(v@)),
            None => ron_string_map(text@) is None,
        },
{
    match ron::from_str::<std::collections::BTreeMap<String, String>>(text) {
        Ok(map) => Some(map.into_iter().collect()),
        Err(_) => None,
    }
}

/// Reads the text of a configuration file: a map from runtime names to versions.
pub fn parse(text: &str) -> (r: Result<Vec<(String, String)>, RuntimeError>)
    ensures
        match ron_string_map(text@) {
            Some(m) => r matches Ok(v) && entries_view(v@) == m,
            None => r == Err::<Vec<(String, String)>, RuntimeError>(RuntimeError::InvalidConfig),
        },
{
    match ron_from_str(text) {
        Some(v) => Ok(v),
        None => Err(RuntimeError::InvalidConfig),
    }
}

/// Each configured runtime with default metadata, beside its version.
pub fn unsafe_collect(data: &Vec<(String, String)>) -> (r: Vec<(Runtime, String)>)
    ensures
        r@.len() == data@.len(),
        forall|i: int|
            0 <= i < r@.len() ==> {
                &&& #[trigger] r@[i].0.name@ == data@[i].0@
                &&& r@[i].0.metadata@ == (RuntimeMetadataView {
                    display_name: Seq::empty(),
                    search_paths: Seq::empty(),
                })
                &&& r@[i].1@ == data@[i].1@
            },
{
    let mut parsed: Vec<(Runtime, String)> = Vec::new();
    let mut i: usize = 0;
    while i < data.len()
        invariant
            i <= data@.len(),
            parsed@.len() == i,
            forall|j: int|
                0 <= j < i ==> {
                    &&& #[trigger] parsed@[j].0.name@ == data@[j].0@
                    &&& parsed@[j].0.metadata@ == (RuntimeMetadataView {
                        display_name: Seq::empty(),
                        search_paths: Seq::empty(),
                    })
                    &&& parsed@[j].1@ == data@[j].1@
                },
        decreases data@.len() - i,
    {
        let runtime = Runtime::unsafe_new(data[i].0.as_str());
        parsed.push((runtime, data[i].1.clone()));
        i = i + 1;
    }
    parsed
}

/// Each configured runtime with its metadata, beside its version, where
/// `metadata[i]` is what was read for the i-th runtime (`None`: not valid
/// metadata). The first runtime without metadata is reported.
pub fn collect(data: &Vec<(String, String)>, metadata: Vec<Option<RuntimeMetadata>>) -> (r: Result<
    Vec<(Runtime, String)>,
    RuntimeError,
>)
    requires
        metadata@.len() == data@.len(),
    ensures
        (forall|i: int| 0 <= i < metadata@.len() ==> #[trigger] metadata@[i] is Some) ==> (r matches Ok(v) && v@.len() == data@.len()
            && forall|i: int|
            0 <= i < v@.len() ==> {
                &&& #[trigger] v@[i].0.name@ == data@[i].0@
                &&& metadata@[i] == Some(v@[i].0.metadata)
                &&& v@[i].1@ == data@[i].1@
            }),
        (exists|i: int| 0 <= i < metadata@.len() && #[trigger] metadata@[i] is None) ==> (r matches Err(RuntimeError::InvalidMetadata(n))
            && exists|k: int|
            #[trigger] first_none(metadata@, k) && n@ == data@[k].0@),
{
    let ghost given = metadata@;
    let mut pending = metadata;
    let mut parsed: Vec<(Runtime, String)> = Vec::new();
    let mut i: usize = 0;
    while i < data.len()
        invariant
            i <= data@.len(),
            given.len() == data@.len(),
            pending@ == given.subrange(i as int, given.len() as int),
            given == metadata@,
            parsed@.len() == i,
            forall|j: int| 0 <= j < i ==> #[trigger] given[j] is Some,
            forall|j: int|
                0 <= j < i ==> {
                    &&& #[trigger] parsed@[j].0.name@ == data@[j].0@
                    &&& given[j] == Some(parsed@[j].0.metadata)
                    &&& parsed@[j].1@ == data@[j].1@
                },
        decreases data@.len() - i,
    {
        let m = pending.remove(0);
        assert(pending@ =~= given.subrange(i + 1, given.len() as int));
        assert(m == given[i as int]);
        let runtime = match Runtime::new(data[i].0.as_str(), m) {
            Ok(rt) => rt,
            Err(e) => {
                assert(first_none(given, i as int));
                return Err(e);
            },
        };
        parsed.push((runtime, data[i].1.clone()));
        i = i + 1;
    }
    Ok(parsed)
}

/// `k` is the first index at which `s` holds `None`.
pub open spec fn first_none<T>(s: Seq<Option<T>>, k: int) -> bool {
    &&& 0 <= k < s.len()
    &&& s[k] is None
    &&& forall|j: int| 0 <= j < k ==> #[trigger] s[j] is Some
}

} // verus!
