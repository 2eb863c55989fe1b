use vstd::prelude::*;
use crate::bimap::BiMap;
use crate::text::{lower_seq, normalize_suffix, strip_leading_dots};

verus! {

/// A normalized filename suffix: lower-cased, with no leading separator.
/// An empty suffix is invalid and rejected before any lookup.
pub struct Suffix {
    text: String,
}

impl View for Suffix {
    type V = Seq<char>;

    closed spec fn view(&self) -> Seq<char> {
        self.text@
    }
}

impl DeepView for Suffix {
    type V = Seq<char>;

    open spec fn deep_view(&self) -> Seq<char> {
        self.view()
    }
}

impl Suffix {
    /// Builds a suffix from raw input, stripping every leading dot and
    /// lower-casing ASCII letters.
    pub fn from(s: &str) -> (suf: Suffix)
        ensures
            suf@ == lower_seq(strip_leading_dots(s@)),
    {
        Suffix { text: normalize_suffix(s) }
    }

    pub fn as_str(&self) -> (r: &str)
        ensures
            r@ == self@,
    {
        self.text.as_str()
    }

    /// An owned copy of the suffix text.
    pub fn to_text(&self) -> (r: String)
        ensures
            r@ == self@,
    {
        self.text.clone()
    }

    pub fn is_empty(&self) -> (b: bool)
        ensures
            b == (self@.len() == 0),
    {
        self.text.as_str().is_empty()
    }
}

/// What resolution yields: nothing for an empty suffix, otherwise exactly
/// the platform service's answer.
pub open spec fn resolve_spec(suffix: Seq<char>, service_id: Option<Seq<char>>) -> Option<
    Seq<char>,
> {
    if suffix.len() == 0 {
        Option::None
    } else {
        service_id
    }
}

/// Resolves a suffix to a content-type identifier.  An empty suffix is
/// rejected before the platform's type-identifier service is consulted;
/// for a non-empty suffix the service's answer, passed in by the caller
/// that performed the native call, is returned as is.
pub fn resolve(suffix: &Suffix, service_id: Option<String>) -> (r: Option<String>)
    ensures
        r.deep_view() == resolve_spec(suffix@, service_id.deep_view()),
{
    if suffix.is_empty() {
        None
    } else {
        service_id
    }
}

/// Resolver totality: a non-empty suffix for which the service answered —
/// and by its contract the service answers every non-empty tag, if only
/// with a synthetic dynamic identifier — always resolves.
pub proof fn lemma_resolver_totality(suffix: Seq<char>, service_id: Option<Seq<char>>)
    requires
        suffix.len() != 0,
        service_id is Some,
    ensures
        resolve_spec(suffix, service_id) is Some,
{
}

/// Empty-input rejection: an empty suffix never resolves, whatever the
/// service would have answered.
pub proof fn lemma_empty_suffix_rejected(service_id: Option<Seq<char>>)
    ensures
        resolve_spec(Seq::<char>::empty(), service_id) is None,
{
}

/// Surfaces a resolution outcome as the error taxonomy: an empty suffix is
/// the empty-input rejection, and a missing service answer — rare, since
/// the service answers every non-empty tag — is resolution exhaustion.
pub fn classify_resolution(suffix: &Suffix, service_id: Option<String>) -> (r: Result<
    String,
    crate::registry::RegistryError,
>)
    ensures
        suffix@.len() == 0 ==> r == Err::<String, crate::registry::RegistryError>(
            crate::registry::RegistryError::EmptySuffix,
        ),
        suffix@.len() != 0 ==> match service_id {
            Some(id) => r == Ok::<String, crate::registry::RegistryError>(id),
            None => r == Err::<String, crate::registry::RegistryError>(
                crate::registry::RegistryError::ResolutionExhausted,
            ),
        },
{
    if suffix.is_empty() {
        Err(crate::registry::RegistryError::EmptySuffix)
    } else {
        match service_id {
            Some(id) => Ok(id),
            None => Err(crate::registry::RegistryError::ResolutionExhausted),
        }
    }
}

/// The positions of a group's suffixes whose resolution failed, in order.
pub open spec fn spec_failed_positions(ids: Seq<Option<Seq<char>>>) -> Seq<int>
    decreases ids.len(),
{
    if ids.len() == 0 {
        Seq::empty()
    } else {
        let rest = spec_failed_positions(ids.drop_last());
        if ids.last() is None {
            rest.push(ids.len() - 1)
        } else {
            rest
        }
    }
}

/// Pairs each resolved identifier of a group with the suffix that produced
/// it.  A suffix whose resolution failed is skipped — not fatal to the
/// group — and its position is reported.  When one identifier is produced
/// by several entries, the last entry wins, as the map's insertion evicts
/// the earlier pair.
pub fn build_group_map(suffixes: &Vec<Suffix>, ids: &Vec<Option<String>>) -> (res: (
    BiMap,
    Vec<usize>,
))
    requires
        suffixes.deep_view().len() == ids.deep_view().len(),
        forall|i: int, j: int|
            0 <= i < j < suffixes.deep_view().len() ==> suffixes.deep_view()[i]
                != suffixes.deep_view()[j],
    ensures
        res.0.wf(),
        res.1@.map_values(|u: usize| u as int) == spec_failed_positions(ids.deep_view()),
        forall|p: (Seq<char>, Seq<char>)|
            #[trigger] res.0.pairs().contains(p) <==> exists|i: int|
                {
                    &&& 0 <= i < ids.deep_view().len()
                    &&& #[trigger] ids.deep_view()[i] == Option::Some(p.0)
                    &&& suffixes.deep_view()[i] == p.1
                    &&& forall|j: int|
                        i < j < ids.deep_view().len() ==> (#[trigger] ids.deep_view()[j])
                            != Option::Some(p.0)
                },
{
    let ghost idv = ids.deep_view();
    let ghost sdv = suffixes.deep_view();
    let n = ids.len();
    let mut map = BiMap::new();
    let mut failed: Vec<usize> = Vec::new();
    let mut i: usize = 0;
    proof {
        assert(idv.len() == ids@.len());
        assert(failed@.map_values(|u: usize| u as int) =~= spec_failed_positions(
            idv.take(0),
        ));
    }
    while i < n
        invariant
            n == ids@.len(),
            n == idv.len(),
            n == sdv.len(),
            idv == ids.deep_view(),
            sdv == suffixes.deep_view(),
            forall|p: int, q: int| 0 <= p < q < n ==> sdv[p] != sdv[q],
            0 <= i <= n,
            map.wf(),
            failed@.map_values(|u: usize| u as int) == spec_failed_positions(
                idv.take(i as int),
            ),
            forall|p: (Seq<char>, Seq<char>)|
                #[trigger] map.pairs().contains(p) <==> exists|k: int|
                    {
                        &&& 0 <= k < i
                        &&& #[trigger] idv[k] == Option::Some(p.0)
                        &&& sdv[k] == p.1
                        &&& forall|j: int|
                            k < j < i ==> (#[trigger] idv[j]) != Option::Some(p.0)
                    },
        decreases n - i,
    {
        proof {
            assert(idv.take(i as int + 1).drop_last() =~= idv.take(i as int));
            assert(idv.take(i as int + 1).last() == idv[i as int]);
            assert(idv[i as int] == ids@[i as int].deep_view());
            assert(sdv[i as int] == suffixes@[i as int].deep_view());
        }
        match &ids[i] {
            None => {
                let ghost f0 = failed@;
                failed.push(i);
                proof {
                    assert(failed@.map_values(|u: usize| u as int) =~= f0.map_values(
                        |u: usize| u as int,
                    ).push(i as int));
                }
            },
            Some(id) => {
                let ghost m0 = map;
                let sfx = suffixes[i].to_text();
                let _ = map.insert(id.clone(), sfx);
                proof {
                    assert forall|p: (Seq<char>, Seq<char>)|
                        #[trigger] map.pairs().contains(p) <==> exists|k: int|
                            {
                                &&& 0 <= k < i + 1
                                &&& #[trigger] idv[k] == Option::Some(p.0)
                                &&& sdv[k] == p.1
                                &&& forall|j: int|
                                    k < j < i + 1 ==> (#[trigger] idv[j]) != Option::Some(p.0)
                            } by {
                        if map.pairs().contains(p) {
                            if p == (id@, sdv[i as int]) {
                                assert(idv[i as int] == Option::Some(p.0));
                            } else {
                                assert(m0.pairs().contains(p) && p.0 != id@ && p.1 != sdv[
                                    i as int]);
                                let k = choose|k: int|
                                    {
                                        &&& 0 <= k < i
                                        &&& #[trigger] idv[k] == Option::Some(p.0)
                                        &&& sdv[k] == p.1
                                        &&& forall|j: int|
                                            k < j < i ==> (#[trigger] idv[j]) != Option::Some(
                                                p.0)
                                    };
                                assert(idv[i as int] != Option::Some(p.0));
                                assert(forall|j: int|
                                    k < j < i + 1 ==> (#[trigger] idv[j]) != Option::Some(
                                        p.0));
                            }
                        }
                        if exists|k: int|
                            {
                                &&& 0 <= k < i + 1
                                &&& #[trigger] idv[k] == Option::Some(p.0)
                                &&& sdv[k] == p.1
                                &&& forall|j: int|
                                    k < j < i + 1 ==> (#[trigger] idv[j]) != Option::Some(p.0)
                            } {
                            let k = choose|k: int|
                                {
                                    &&& 0 <= k < i + 1
                                    &&& #[trigger] idv[k] == Option::Some(p.0)
                                    &&& sdv[k] == p.1
                                    &&& forall|j: int|
                                        k < j < i + 1 ==> (#[trigger] idv[j]) != Option::Some(
                                            p.0)
                                };
                            if k == i {
                                assert(p == (id@, sdv[i as int]));
                                assert(map.pairs().contains(p));
                            } else {
                                assert(idv[i as int] != Option::Some(p.0));
                                assert(p.0 != id@);
                                assert(p.1 != sdv[i as int]);
                                assert(m0.pairs().contains(p));
                                assert(map.pairs().contains(p));
                            }
                        }
                    }
                }
            },
        }
        i += 1;
    }
    proof {
        assert(idv.take(n as int) =~= idv);
    }
    (map, failed)
}

} // verus!
