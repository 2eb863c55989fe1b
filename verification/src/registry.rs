use vstd::prelude::*;
use vstd::string::StringExecFns;
use crate::config::Config;
use crate::order::{contains_string, insert_sorted, lemma_sorted_unique, sorted_lex};

verus! {

/// The failures the registry layer reports.  Native-call failures are
/// recovered into these; nothing in this crate panics.
#[derive(Debug, PartialEq, Eq)]
pub enum RegistryError {
    /// A suffix was empty; rejected before any native call.
    EmptySuffix,
    /// A handler identifier was empty; rejected before any native call.
    EmptyHandler,
    /// The type-identifier service gave no answer for a suffix.
    ResolutionExhausted,
    /// Every suffix of a group failed to resolve.
    NoValidIdentifiers,
    /// The handler sets of a group have an empty intersection.
    NoCommonHandler,
    /// The last native assignment attempt returned a non-zero code.
    Assignment { code: i32 },
}

impl RegistryError {
    /// The description of each failure.
    pub open spec fn message_spec(&self) -> Seq<char> {
        match self {
            RegistryError::EmptySuffix => "Suffix cannot be empty"@,
            RegistryError::EmptyHandler => "Bundle ID cannot be empty"@,
            RegistryError::ResolutionExhausted => "Could not resolve a content type identifier"@,
            RegistryError::NoValidIdentifiers => "No suffix of the group could be resolved"@,
            RegistryError::NoCommonHandler => "No handlers found for the specified content types."@,
            RegistryError::Assignment {
                ..
            } => "Failed to set default application. Error code: "@,
        }
    }

    /// A short description of the failure; the assignment code is carried in
    /// the variant and appended by `render`.
    pub fn message(&self) -> (r: &'static str)
        ensures
            r@ == self.message_spec(),
    {
        match self {
            RegistryError::EmptySuffix => "Suffix cannot be empty",
            RegistryError::EmptyHandler => "Bundle ID cannot be empty",
            RegistryError::ResolutionExhausted => "Could not resolve a content type identifier",
            RegistryError::NoValidIdentifiers => "No suffix of the group could be resolved",
            RegistryError::NoCommonHandler => "No handlers found for the specified content types.",
            RegistryError::Assignment { .. } => "Failed to set default application. Error code: ",
        }
    }

    /// The full failure text: the description, with the decimal assignment
    /// code appended for an assignment failure.
    pub fn render(&self) -> (r: String)
        ensures
            match self {
                RegistryError::Assignment { code } => r@ == self.message_spec()
                    + crate::text::int_rep(*code as int),
                _ => r@ == self.message_spec(),
            },
    {
        let prefix = self.message();
        match self {
            RegistryError::Assignment { code } => {
                let digits = crate::text::i32_to_string(*code);
                String::from_str(prefix).concat(digits.as_str())
            },
            _ => prefix.to_owned(),
        }
    }
}

/// Whether a registry query for this content-type identifier may proceed;
/// an empty identifier is rejected before any native call.
pub fn query_allowed(uti: &str) -> (r: bool)
    ensures
        r == (uti@.len() != 0),
{
    !uti.is_empty()
}

/// Validates the inputs of an assignment: the suffix and the handler
/// identifier must both be non-empty.  Rejection happens before any native
/// call is made.
pub fn check_assignment_inputs(config: &Config, bundle_id: &str) -> (r: Result<
    (),
    RegistryError,
>)
    ensures
        r is Ok <==> (config.suffix@.len() != 0 && bundle_id@.len() != 0),
        config.suffix@.len() == 0 ==> r == Err::<(), RegistryError>(RegistryError::EmptySuffix),
        config.suffix@.len() != 0 && bundle_id@.len() == 0 ==> r == Err::<(), RegistryError>(
            RegistryError::EmptyHandler,
        ),
{
    if config.suffix.as_str().is_empty() {
        Err(RegistryError::EmptySuffix)
    } else if bundle_id.is_empty() {
        Err(RegistryError::EmptyHandler)
    } else {
        Ok(())
    }
}

/// The outcome of an assignment round: the return code of the last native
/// attempt is authoritative — zero is success, anything else fails with
/// that code.
pub fn assignment_outcome(last_code: i32) -> (r: Result<(), RegistryError>)
    ensures
        last_code == 0 ==> r is Ok,
        last_code != 0 ==> r == Err::<(), RegistryError>(
            RegistryError::Assignment { code: last_code },
        ),
{
    if last_code == 0 {
        Ok(())
    } else {
        Err(RegistryError::Assignment { code: last_code })
    }
}

/// Gate of a group operation: a group in which no suffix resolved has no
/// identifier to work on and fails as a whole.
pub fn check_group_has_identifiers(map: &crate::bimap::BiMap) -> (r: Result<(), RegistryError>)
    ensures
        r is Ok <==> map.spec_len() != 0,
        map.spec_len() == 0 ==> r == Err::<(), RegistryError>(RegistryError::NoValidIdentifiers),
{
    if map.is_empty() {
        Err(RegistryError::NoValidIdentifiers)
    } else {
        Ok(())
    }
}

/// Surfaces a group intersection as the error taxonomy: an absent or empty
/// intersection is the no-common-handler outcome, reported apart from a
/// single type's empty handler list so a caller can offer a fallback.
pub fn classify_common_handlers(common: Option<Vec<String>>) -> (r: Result<
    Vec<String>,
    RegistryError,
>)
    ensures
        match common {
            Some(v) => {
                if v@.len() == 0 {
                    r == Err::<Vec<String>, RegistryError>(RegistryError::NoCommonHandler)
                } else {
                    r == Ok::<Vec<String>, RegistryError>(v)
                }
            },
            None => r == Err::<Vec<String>, RegistryError>(RegistryError::NoCommonHandler),
        },
{
    match common {
        Some(v) => {
            if v.is_empty() {
                Err(RegistryError::NoCommonHandler)
            } else {
                Ok(v)
            }
        },
        None => Err(RegistryError::NoCommonHandler),
    }
}

/// Accumulates the handlers observed across the repeated reads of one
/// registry query.  A single read may transiently omit handlers; the union
/// over a bounded window of reads converges on the stable set.  The
/// accumulator keeps the union sorted and duplicate-free throughout.
pub struct HandlerQuery {
    seen: Vec<String>,
}

impl HandlerQuery {
    /// The handlers observed so far, sorted lexicographically.
    pub closed spec fn seen_view(&self) -> Seq<Seq<char>> {
        self.seen.deep_view()
    }

    pub open spec fn wf(&self) -> bool {
        sorted_lex(self.seen_view()) && self.seen_view().no_duplicates()
    }

    pub fn new() -> (q: HandlerQuery)
        ensures
            q.wf(),
            q.seen_view().len() == 0,
    {
        let q = HandlerQuery { seen: Vec::new() };
        proof {
            assert(q.seen_view() =~= Seq::<Seq<char>>::empty());
        }
        q
    }

    /// Folds one read of the registry into the union: every handler of
    /// `observed` not yet seen is added; nothing is ever removed.
    pub fn observe(&mut self, observed: &Vec<String>)
        requires
            old(self).wf(),
        ensures
            final(self).wf(),
            forall|x: Seq<char>|
                #[trigger] final(self).seen_view().contains(x) <==> (old(
                    self,
                ).seen_view().contains(x) || observed.deep_view().contains(x)),
    {
        let n = observed.len();
        let mut i: usize = 0;
        while i < n
            invariant
                n == observed.deep_view().len(),
                0 <= i <= n,
                self.wf(),
                forall|x: Seq<char>|
                    #[trigger] self.seen_view().contains(x) <==> (old(
                        self,
                    ).seen_view().contains(x) || exists|j: int|
                        0 <= j < i && observed.deep_view()[j] == x),
            decreases n - i,
        {
            insert_sorted(&mut self.seen, observed[i].as_str());
            proof {
                assert(observed.deep_view()[i as int] == observed@[i as int]@);
            }
            i += 1;
        }
        proof {
            assert forall|x: Seq<char>|
                (exists|j: int| 0 <= j < n && observed.deep_view()[j] == x)
                    == observed.deep_view().contains(x) by {}
        }
    }

    /// Ends the query: the sorted union of everything observed, or `None`
    /// when no handler was ever seen — an empty result after the whole
    /// attempt budget means the content type has no known handlers.
    pub fn finish(self) -> (r: Option<Vec<String>>)
        ensures
            match r {
                Some(v) => v.deep_view() == self.seen_view() && self.seen_view().len() != 0,
                None => self.seen_view().len() == 0,
            },
    {
        if self.seen.is_empty() {
            None
        } else {
            Some(self.seen)
        }
    }
}

/// Query stability: two accumulators that observed the same set of handlers
/// hold identical sorted sequences, so two well-converged queries of the
/// same identifier present their results in the same order.
pub proof fn lemma_query_stability(q1: &HandlerQuery, q2: &HandlerQuery)
    requires
        q1.wf(),
        q2.wf(),
        forall|x: Seq<char>| q1.seen_view().contains(x) <==> q2.seen_view().contains(x),
    ensures
        q1.seen_view() == q2.seen_view(),
{
    lemma_sorted_unique(q1.seen_view(), q2.seen_view());
}

/// The elements of `c`, in order, that `s` also holds.
pub open spec fn seq_intersect(c: Seq<Seq<char>>, s: Seq<Seq<char>>) -> Seq<Seq<char>>
    decreases c.len(),
{
    if c.len() == 0 {
        Seq::empty()
    } else {
        let rest = seq_intersect(c.drop_last(), s);
        if s.contains(c.last()) {
            rest.push(c.last())
        } else {
            rest
        }
    }
}

/// Membership in an intersection.
pub proof fn lemma_intersect_membership(c: Seq<Seq<char>>, s: Seq<Seq<char>>)
    ensures
        forall|x: Seq<char>|
            #[trigger] seq_intersect(c, s).contains(x) <==> (c.contains(x) && s.contains(x)),
    decreases c.len(),
{
    if c.len() == 0 {
        assert forall|x: Seq<char>| !(#[trigger] seq_intersect(c, s).contains(x)) by {}
        assert forall|x: Seq<char>| !(#[trigger] c.contains(x)) by {}
    } else {
        lemma_intersect_membership(c.drop_last(), s);
        let rest = seq_intersect(c.drop_last(), s);
        assert forall|x: Seq<char>| #[trigger] seq_intersect(c, s).contains(x) implies (
        c.contains(x) && s.contains(x)) by {
            if s.contains(c.last()) {
                let t = rest.push(c.last());
                let j = choose|j: int| 0 <= j < t.len() && t[j] == x;
                if j < rest.len() {
                    assert(rest.contains(x));
                    assert(c.drop_last().contains(x));
                    let k = choose|k: int| 0 <= k < c.drop_last().len() && c.drop_last()[k] == x;
                    assert(c[k] == x);
                } else {
                    assert(x == c.last());
                    assert(c[c.len() - 1] == x);
                }
            } else {
                assert(rest.contains(x));
                assert(c.drop_last().contains(x));
                let k = choose|k: int| 0 <= k < c.drop_last().len() && c.drop_last()[k] == x;
                assert(c[k] == x);
            }
        }
        assert forall|x: Seq<char>| c.contains(x) && s.contains(x) implies #[trigger] seq_intersect(
            c,
            s,
        ).contains(x) by {
            let k = choose|k: int| 0 <= k < c.len() && c[k] == x;
            if k < c.len() - 1 {
                assert(c.drop_last()[k] == x);
                assert(c.drop_last().contains(x));
                assert(rest.contains(x));
                let j = choose|j: int| 0 <= j < rest.len() && rest[j] == x;
                if s.contains(c.last()) {
                    assert(rest.push(c.last())[j] == x);
                }
            } else {
                assert(x == c.last());
                assert(seq_intersect(c, s)[seq_intersect(c, s).len() - 1] == x);
            }
        }
    }
}

/// Intersecting keeps order: the intersection of a sorted list is sorted.
pub proof fn lemma_intersect_sorted(c: Seq<Seq<char>>, s: Seq<Seq<char>>)
    requires
        sorted_lex(c),
    ensures
        sorted_lex(seq_intersect(c, s)),
    decreases c.len(),
{
    if c.len() > 0 {
        assert(sorted_lex(c.drop_last())) by {
            assert forall|p: int, q: int|
                0 <= p < q < c.drop_last().len() implies crate::order::lex_le(
                #[trigger] c.drop_last()[p],
                #[trigger] c.drop_last()[q],
            ) by {
                assert(c.drop_last()[p] == c[p]);
                assert(c.drop_last()[q] == c[q]);
            }
        }
        lemma_intersect_sorted(c.drop_last(), s);
        lemma_intersect_membership(c.drop_last(), s);
        let rest = seq_intersect(c.drop_last(), s);
        if s.contains(c.last()) {
            let r = rest.push(c.last());
            assert forall|p: int, q: int| 0 <= p < q < r.len() implies crate::order::lex_le(
                #[trigger] r[p],
                #[trigger] r[q],
            ) by {
                if q < rest.len() {
                    assert(r[p] == rest[p]);
                    assert(r[q] == rest[q]);
                } else {
                    assert(r[p] == rest[p]);
                    assert(r[q] == c.last());
                    assert(rest.contains(rest[p]));
                    assert(c.drop_last().contains(rest[p]));
                    let k = choose|k: int|
                        0 <= k < c.drop_last().len() && c.drop_last()[k] == rest[p];
                    assert(c[k] == rest[p]);
                    assert(crate::order::lex_le(c[k], c[c.len() - 1]));
                }
            }
        }
    }
}

/// Presentation determinism: a successful group intersection of sorted
/// handler lists is itself sorted, so equal groups present identically.
pub proof fn lemma_common_sorted(sets: Seq<Option<Seq<Seq<char>>>>, c: Seq<Seq<char>>)
    requires
        common_handlers_spec(sets) == Option::Some(c),
        forall|i: int|
            0 <= i < sets.len() ==> ((#[trigger] sets[i]) matches Option::Some(s)
                ==> sorted_lex(s)),
    ensures
        sorted_lex(c),
{
    lemma_fold_sorted(sets, Option::None, c);
}

/// Sortedness through the fold: the accumulator, once seeded sorted, stays
/// sorted.
proof fn lemma_fold_sorted(
    sets: Seq<Option<Seq<Seq<char>>>>,
    acc: Option<Seq<Seq<char>>>,
    c: Seq<Seq<char>>,
)
    requires
        common_fold(sets, acc) == Option::Some(c),
        acc matches Option::Some(a) ==> sorted_lex(a),
        forall|i: int|
            0 <= i < sets.len() ==> ((#[trigger] sets[i]) matches Option::Some(s)
                ==> sorted_lex(s)),
    ensures
        sorted_lex(c),
    decreases sets.len(),
{
    if sets.len() == 0 {
        assert(acc == Option::Some(c));
    } else {
        let s0 = sets[0]->0;
        assert(forall|i: int|
            0 <= i < sets.drop_first().len() ==> ((#[trigger] sets.drop_first()[i])
                matches Option::Some(s) ==> sorted_lex(s)));
        match acc {
            Option::None => {
                lemma_fold_sorted(sets.drop_first(), Option::Some(s0), c);
            },
            Option::Some(a) => {
                lemma_intersect_sorted(a, s0);
                let f = seq_intersect(a, s0);
                lemma_fold_sorted(sets.drop_first(), Option::Some(f), c);
            },
        }
    }
}

/// Keeps, in order, the strings of `v` that `other` also holds.
pub fn retain_common(v: &Vec<String>, other: &Vec<String>) -> (r: Vec<String>)
    ensures
        r.deep_view() == seq_intersect(v.deep_view(), other.deep_view()),
{
    let n = v.len();
    let mut r: Vec<String> = Vec::new();
    let mut i: usize = 0;
    proof {
        assert(v.deep_view().take(0) =~= Seq::<Seq<char>>::empty());
        assert(r.deep_view() =~= Seq::<Seq<char>>::empty());
    }
    while i < n
        invariant
            n == v.deep_view().len(),
            n == v@.len(),
            0 <= i <= n,
            r.deep_view() == seq_intersect(v.deep_view().take(i as int), other.deep_view()),
        decreases n - i,
    {
        let ghost r0dv = r.deep_view();
        if contains_string(other, v[i].as_str()) {
            let c = v[i].clone();
            r.push(c);
            proof {
                assert(r.deep_view() =~= r0dv.push(v.deep_view()[i as int]));
            }
        }
        proof {
            let dv = v.deep_view();
            assert(dv.take(i as int + 1).drop_last() =~= dv.take(i as int));
            assert(dv.take(i as int + 1).last() == dv[i as int]);
        }
        i += 1;
    }
    proof {
        assert(v.deep_view().take(n as int) =~= v.deep_view());
    }
    r
}

/// One step of the running intersection: what the group holds after one
/// more identifier's handler list is folded in.  `None` for the list means
/// that identifier's query failed, which fails the whole group.
pub open spec fn common_fold(
    sets: Seq<Option<Seq<Seq<char>>>>,
    acc: Option<Seq<Seq<char>>>,
) -> Option<Seq<Seq<char>>>
    decreases sets.len(),
{
    if sets.len() == 0 {
        acc
    } else {
        match sets[0] {
            Option::None => Option::None,
            Option::Some(s) => match acc {
                Option::None => common_fold(sets.drop_first(), Option::Some(s)),
                Option::Some(c) => {
                    let f = seq_intersect(c, s);
                    if f.len() == 0 {
                        Option::None
                    } else {
                        common_fold(sets.drop_first(), Option::Some(f))
                    }
                },
            },
        }
    }
}

/// The handlers every identifier of a group has in common: the first list
/// seeds the intersection and each later list narrows it.  `None` when no
/// identifier was queried, when any query failed, or when the intersection
/// ran empty.
pub open spec fn common_handlers_spec(sets: Seq<Option<Seq<Seq<char>>>>) -> Option<
    Seq<Seq<char>>,
> {
    common_fold(sets, Option::None)
}

/// Intersects the per-identifier handler lists of a group, one list per
/// distinct identifier, in order.  The running intersection is seeded with
/// the first list and narrowed by each later one; the walk stops early as
/// soon as it runs empty.
pub fn get_common_role_handlers(handler_sets: &Vec<Option<Vec<String>>>) -> (r: Option<
    Vec<String>,
>)
    ensures
        r.deep_view() == common_handlers_spec(handler_sets.deep_view()),
{
    let ghost sets = handler_sets.deep_view();
    let n = handler_sets.len();
    let mut common: Option<Vec<String>> = None;
    let mut i: usize = 0;
    proof {
        assert(sets.skip(0) =~= sets);
    }
    while i < n
        invariant
            n == sets.len(),
            n == handler_sets@.len(),
            sets == handler_sets.deep_view(),
            0 <= i <= n,
            common_fold(sets.skip(i as int), common.deep_view()) == common_handlers_spec(sets),
        decreases n - i,
    {
        proof {
            assert(sets.skip(i as int)[0] == sets[i as int]);
            assert(sets.skip(i as int).drop_first() =~= sets.skip(i as int + 1));
            assert(sets[i as int] == handler_sets@[i as int].deep_view());
        }
        match &handler_sets[i] {
            None => {
                return None;
            },
            Some(hs) => {
                let next = match &common {
                    None => crate::order::clone_strings(hs),
                    Some(c) => {
                        let inter = retain_common(c, hs);
                        if inter.is_empty() {
                            proof {
                                assert(seq_intersect(c.deep_view(), hs.deep_view()).len() == 0);
                            }
                            return None;
                        }
                        inter
                    },
                };
                common = Some(next);
            },
        }
        i += 1;
    }
    proof {
        assert(sets.skip(n as int) =~= Seq::<Option<Seq<Seq<char>>>>::empty());
    }
    common
}

/// Group intersection law: when the group's intersection succeeds, a
/// handler is in the result exactly when every queried identifier's list
/// holds it.
pub proof fn lemma_common_membership(sets: Seq<Option<Seq<Seq<char>>>>, c: Seq<Seq<char>>)
    requires
        common_handlers_spec(sets) == Option::Some(c),
    ensures
        sets.len() > 0,
        forall|x: Seq<char>|
            #[trigger] c.contains(x) ==> forall|i: int|
                0 <= i < sets.len() ==> sets[i] is Some && (#[trigger] sets[i])->0.contains(x),
        forall|x: Seq<char>|
            (sets[0] is Some && sets[0]->0.contains(x) && forall|i: int|
                0 <= i < sets.len() ==> (#[trigger] sets[i]) is Some && sets[i]->0.contains(x))
                ==> #[trigger] c.contains(x),
{
    lemma_common_fold_membership(sets, Option::None, c);
}

/// Generalized membership through the fold.
proof fn lemma_common_fold_membership(
    sets: Seq<Option<Seq<Seq<char>>>>,
    acc: Option<Seq<Seq<char>>>,
    c: Seq<Seq<char>>,
)
    requires
        common_fold(sets, acc) == Option::Some(c),
        acc is None ==> sets.len() > 0,
    ensures
        forall|x: Seq<char>|
            #[trigger] c.contains(x) ==> ((acc is Some ==> acc->0.contains(x)) && forall|i: int|
                0 <= i < sets.len() ==> (#[trigger] sets[i]) is Some && sets[i]->0.contains(x)),
        forall|x: Seq<char>|
            ((acc is Some && acc->0.contains(x)) || (acc is None && sets[0] is Some
                && sets[0]->0.contains(x))) && (forall|i: int|
                0 <= i < sets.len() ==> (#[trigger] sets[i]) is Some && sets[i]->0.contains(x))
                ==> #[trigger] c.contains(x),
    decreases sets.len(),
{
    if sets.len() == 0 {
        assert(acc == Option::Some(c));
    } else {
        let s0 = sets[0]->0;
        match acc {
            Option::None => {
                lemma_common_fold_membership(sets.drop_first(), Option::Some(s0), c);
                assert forall|x: Seq<char>| #[trigger] c.contains(x) implies (forall|i: int|
                    0 <= i < sets.len() ==> (#[trigger] sets[i]) is Some
                        && sets[i]->0.contains(x)) by {
                    assert forall|i: int| 0 <= i < sets.len() implies (#[trigger] sets[i]) is Some
                        && sets[i]->0.contains(x) by {
                        if i > 0 {
                            assert(sets.drop_first()[i - 1] == sets[i]);
                        }
                    }
                }
                assert forall|x: Seq<char>|
                    (sets[0] is Some && sets[0]->0.contains(x)) && (forall|i: int|
                        0 <= i < sets.len() ==> (#[trigger] sets[i]) is Some
                            && sets[i]->0.contains(x)) implies #[trigger] c.contains(x) by {
                    assert forall|i: int| 0 <= i < sets.drop_first().len() implies (
                    #[trigger] sets.drop_first()[i]) is Some && sets.drop_first()[i]->0.contains(
                        x,
                    ) by {
                        assert(sets.drop_first()[i] == sets[i + 1]);
                    }
                }
            },
            Option::Some(a) => {
                let f = seq_intersect(a, s0);
                assert(f.len() != 0);
                lemma_intersect_membership(a, s0);
                if sets.drop_first().len() == 0 {
                    assert(common_fold(sets.drop_first(), Option::Some(f)) == Option::Some(f));
                    assert(c == f);
                    assert forall|x: Seq<char>| #[trigger] c.contains(x) implies (a.contains(x)
                        && forall|i: int|
                        0 <= i < sets.len() ==> (#[trigger] sets[i]) is Some
                            && sets[i]->0.contains(x)) by {
                        assert forall|i: int|
                            0 <= i < sets.len() implies (#[trigger] sets[i]) is Some
                            && sets[i]->0.contains(x) by {
                            assert(i == 0);
                        }
                    }
                } else {
                    lemma_common_fold_membership(sets.drop_first(), Option::Some(f), c);
                    assert forall|x: Seq<char>| #[trigger] c.contains(x) implies (a.contains(x)
                        && forall|i: int|
                        0 <= i < sets.len() ==> (#[trigger] sets[i]) is Some
                            && sets[i]->0.contains(x)) by {
                        assert(f.contains(x));
                        assert forall|i: int|
                            0 <= i < sets.len() implies (#[trigger] sets[i]) is Some
                            && sets[i]->0.contains(x) by {
                            if i > 0 {
                                assert(sets.drop_first()[i - 1] == sets[i]);
                            }
                        }
                    }
                    assert forall|x: Seq<char>|
                        a.contains(x) && (forall|i: int|
                            0 <= i < sets.len() ==> (#[trigger] sets[i]) is Some
                                && sets[i]->0.contains(x)) implies #[trigger] c.contains(x) by {
                        assert(sets[0]->0.contains(x));
                        assert(f.contains(x));
                        assert forall|i: int| 0 <= i < sets.drop_first().len() implies (
                        #[trigger] sets.drop_first()[i]) is Some
                            && sets.drop_first()[i]->0.contains(x) by {
                            assert(sets.drop_first()[i] == sets[i + 1]);
                        }
                    }
                }
            },
        }
    }
}

} // verus!
