use vstd::prelude::*;
use vstd::string::StrSliceExecFns;

verus! {

/// Lexicographic order on character sequences, comparing code points
/// position by position; a proper prefix comes first.
pub open spec fn lex_le(a: Seq<char>, b: Seq<char>) -> bool
    decreases a.len(),
{
    if a.len() == 0 {
        true
    } else if b.len() == 0 {
        false
    } else if (a[0] as u32) < (b[0] as u32) {
        true
    } else if (b[0] as u32) < (a[0] as u32) {
        false
    } else {
        lex_le(a.drop_first(), b.drop_first())
    }
}

/// Strict lexicographic order.
pub open spec fn lex_lt(a: Seq<char>, b: Seq<char>) -> bool {
    lex_le(a, b) && a != b
}

/// A sequence of strings in lexicographic order.
pub open spec fn sorted_lex(s: Seq<Seq<char>>) -> bool {
    forall|i: int, j: int| 0 <= i < j < s.len() ==> lex_le(#[trigger] s[i], #[trigger] s[j])
}

/// Two characters with the same code point are the same character.
proof fn char_code_inj(a: char, b: char)
    requires
        (a as u32) == (b as u32),
    ensures
        a == b,
{
}

pub proof fn lemma_lex_refl(a: Seq<char>)
    ensures
        lex_le(a, a),
    decreases a.len(),
{
    if a.len() > 0 {
        lemma_lex_refl(a.drop_first());
    }
}

pub proof fn lemma_lex_total(a: Seq<char>, b: Seq<char>)
    ensures
        lex_le(a, b) || lex_le(b, a),
    decreases a.len(),
{
    if a.len() > 0 && b.len() > 0 && !((a[0] as u32) < (b[0] as u32)) && !((b[0] as u32) < (
    a[0] as u32)) {
        lemma_lex_total(a.drop_first(), b.drop_first());
    }
}

pub proof fn lemma_lex_antisym(a: Seq<char>, b: Seq<char>)
    requires
        lex_le(a, b),
        lex_le(b, a),
    ensures
        a == b,
    decreases a.len(),
{
    if a.len() == 0 {
        assert(b.len() == 0);
        assert(a =~= b);
    } else {
        assert(b.len() > 0);
        if (a[0] as u32) < (b[0] as u32) {
            assert(!lex_le(b, a));
        }
        if (b[0] as u32) < (a[0] as u32) {
            assert(!lex_le(a, b));
        }
        assert((a[0] as u32) == (b[0] as u32));
        char_code_inj(a[0], b[0]);
        lemma_lex_antisym(a.drop_first(), b.drop_first());
        assert(a.len() == b.len());
        assert forall|i: int| 0 <= i < a.len() implies a[i] == b[i] by {
            if i > 0 {
                assert(a.drop_first()[i - 1] == b.drop_first()[i - 1]);
            }
        }
        assert(a =~= b);
    }
}

pub proof fn lemma_lex_trans(a: Seq<char>, b: Seq<char>, c: Seq<char>)
    requires
        lex_le(a, b),
        lex_le(b, c),
    ensures
        lex_le(a, c),
    decreases a.len(),
{
    if a.len() > 0 && b.len() > 0 && c.len() > 0 && (a[0] as u32) == (b[0] as u32) && (
    b[0] as u32) == (c[0] as u32) {
        lemma_lex_trans(a.drop_first(), b.drop_first(), c.drop_first());
    }
}

/// Lexicographic comparison of two strings.
pub fn str_le(a: &str, b: &str) -> (r: bool)
    ensures
        r == lex_le(a@, b@),
{
    let alen = a.unicode_len();
    let blen = b.unicode_len();
    let mut i: usize = 0;
    proof {
        assert(a@.skip(0) =~= a@);
        assert(b@.skip(0) =~= b@);
    }
    loop
        invariant
            i <= alen,
            i <= blen,
            alen == a@.len(),
            blen == b@.len(),
            lex_le(a@, b@) == lex_le(a@.skip(i as int), b@.skip(i as int)),
        decreases alen - i,
    {
        if i >= alen {
            return true;
        }
        if i >= blen {
            return false;
        }
        let ca = a.get_char(i);
        let cb = b.get_char(i);
        proof {
            assert(a@.skip(i as int)[0] == a@[i as int]);
            assert(b@.skip(i as int)[0] == b@[i as int]);
        }
        if (ca as u32) < (cb as u32) {
            return true;
        }
        if (cb as u32) < (ca as u32) {
            return false;
        }
        proof {
            assert(a@.skip(i as int).drop_first() =~= a@.skip(i as int + 1));
            assert(b@.skip(i as int).drop_first() =~= b@.skip(i as int + 1));
        }
        i += 1;
    }
}

/// Whether two strings hold the same characters.
pub fn str_eq(a: &str, b: &str) -> (r: bool)
    ensures
        r == (a@ == b@),
{
    let le1 = str_le(a, b);
    let le2 = str_le(b, a);
    proof {
        if le1 && le2 {
            lemma_lex_antisym(a@, b@);
        }
        if a@ == b@ {
            lemma_lex_refl(a@);
        }
    }
    le1 && le2
}

/// Whether the vector holds the given string.
pub fn contains_string(v: &Vec<String>, s: &str) -> (r: bool)
    ensures
        r == v.deep_view().contains(s@),
{
    let n = v.len();
    let mut i: usize = 0;
    while i < n
        invariant
            n == v.deep_view().len(),
            0 <= i <= n,
            forall|j: int| 0 <= j < i ==> #[trigger] v.deep_view()[j] != s@,
        decreases n - i,
    {
        if str_le(v[i].as_str(), s) && str_le(s, v[i].as_str()) {
            proof {
                lemma_lex_antisym(v.deep_view()[i as int], s@);
                assert(v.deep_view().contains(s@));
            }
            return true;
        }
        proof {
            lemma_lex_total(v.deep_view()[i as int], s@);
        }
        i += 1;
    }
    proof {
        if v.deep_view().contains(s@) {
            let j = choose|j: int| 0 <= j < n && v.deep_view()[j] == s@;
            assert(v.deep_view()[j] != s@);
        }
    }
    false
}

/// An owned copy of a vector of strings.
pub fn clone_strings(v: &Vec<String>) -> (r: Vec<String>)
    ensures
        r.deep_view() == v.deep_view(),
{
    let n = v.len();
    let mut r: Vec<String> = Vec::new();
    let mut i: usize = 0;
    while i < n
        invariant
            n == v.deep_view().len(),
            n == v@.len(),
            0 <= i <= n,
            r.deep_view().len() == i,
            forall|j: int| 0 <= j < i ==> #[trigger] r.deep_view()[j] == v.deep_view()[j],
        decreases n - i,
    {
        let c = v[i].clone();
        let ghost r0 = r;
        r.push(c);
        proof {
            assert forall|j: int| 0 <= j < i + 1 implies #[trigger] r.deep_view()[j]
                == v.deep_view()[j] by {
                assert(r.deep_view()[j] == r@[j].deep_view());
                if j < i {
                    assert(r@[j] == r0@[j]);
                    assert(r0.deep_view()[j] == r0@[j].deep_view());
                } else {
                    assert(r@[j] == c);
                }
            }
        }
        i += 1;
    }
    proof {
        assert(r.deep_view() =~= v.deep_view());
    }
    r
}

/// Membership through an insertion at an index.
proof fn lemma_insert_membership(s: Seq<Seq<char>>, i: int, x: Seq<char>)
    requires
        0 <= i <= s.len(),
    ensures
        forall|y: Seq<char>|
            #[trigger] s.insert(i, x).contains(y) <==> (s.contains(y) || y == x),
{
    let t = s.insert(i, x);
    assert forall|y: Seq<char>| #[trigger] t.contains(y) implies (s.contains(y) || y == x) by {
        let j = choose|j: int| 0 <= j < t.len() && t[j] == y;
        if j < i {
            assert(s[j] == y);
        } else if j > i {
            assert(s[j - 1] == y);
        }
    }
    assert forall|y: Seq<char>| s.contains(y) || y == x implies #[trigger] t.contains(y) by {
        if y == x {
            assert(t[i] == y);
        } else {
            let j = choose|j: int| 0 <= j < s.len() && s[j] == y;
            if j < i {
                assert(t[j] == y);
            } else {
                assert(t[j + 1] == y);
            }
        }
    }
}

/// Inserts `s` into a sorted, duplicate-free vector, keeping it sorted and
/// duplicate-free; a string already held is not added again.
pub fn insert_sorted(v: &mut Vec<String>, s: &str)
    requires
        sorted_lex(old(v).deep_view()),
        old(v).deep_view().no_duplicates(),
    ensures
        sorted_lex(final(v).deep_view()),
        final(v).deep_view().no_duplicates(),
        forall|x: Seq<char>|
            #[trigger] final(v).deep_view().contains(x) <==> (old(v).deep_view().contains(x)
                || x == s@),
{
    let n = v.len();
    let mut i: usize = 0;
    while i < n
        invariant
            n == v.deep_view().len(),
            0 <= i <= n,
            *v == *old(v),
            sorted_lex(v.deep_view()),
            v.deep_view().no_duplicates(),
            forall|j: int| 0 <= j < i ==> lex_lt(#[trigger] v.deep_view()[j], s@),
        decreases n - i,
    {
        if str_le(s, v[i].as_str()) {
            if str_le(v[i].as_str(), s) {
                // Equal: already held.
                proof {
                    lemma_lex_antisym(v.deep_view()[i as int], s@);
                    assert(v.deep_view().contains(s@));
                }
                return ;
            }
            // Strictly before position i: insert there.
            let ghost dv0 = v.deep_view();
            let owned = s.to_owned();
            v.insert(i, owned);
            proof {
                assert(v.deep_view() =~= dv0.insert(i as int, s@));
                lemma_insert_membership(dv0, i as int, s@);
                let dv = v.deep_view();
                assert forall|p: int, q: int| 0 <= p < q < dv.len() implies lex_le(
                    #[trigger] dv[p],
                    #[trigger] dv[q],
                ) by {
                    let p0: int = if p < i { p } else { p - 1 };
                    let q0: int = if q <= i { q } else { q - 1 };
                    if p == i {
                        // dv[p] == s@, q > i
                        assert(dv[q] == dv0[q - 1]);
                        if q - 1 == i {
                            assert(lex_le(s@, dv0[i as int]));
                        } else {
                            lemma_lex_trans(s@, dv0[i as int], dv0[q - 1]);
                        }
                    } else if q == i {
                        // dv[q] == s@, p < i
                        assert(dv[p] == dv0[p]);
                        assert(lex_lt(dv0[p], s@));
                    } else {
                        assert(dv[p] == dv0[p0]);
                        assert(dv[q] == dv0[q0]);
                        if p < i && q > i {
                            assert(p0 == p && q0 == q - 1);
                            if p0 == q0 {
                                lemma_lex_refl(dv0[p0]);
                            }
                        }
                    }
                }
                assert forall|p: int, q: int| 0 <= p < q < dv.len() implies #[trigger] dv[p]
                    != #[trigger] dv[q] by {
                    if p == i {
                        assert(dv[q] == dv0[q - 1]);
                        if q - 1 == i {
                            assert(lex_lt(s@, dv0[i as int]));
                        } else {
                            assert(lex_lt(s@, dv0[i as int]));
                            lemma_lex_trans(s@, dv0[i as int], dv0[q - 1]);
                            if s@ == dv0[q - 1] {
                                lemma_lex_antisym(s@, dv0[i as int]);
                            }
                        }
                    } else if q == i {
                        assert(dv[p] == dv0[p]);
                        assert(lex_lt(dv0[p], s@));
                    } else {
                        let p0: int = if p < i { p } else { p - 1 };
                        let q0: int = if q <= i { q } else { q - 1 };
                        assert(dv[p] == dv0[p0]);
                        assert(dv[q] == dv0[q0]);
                    }
                }
            }
            return ;
        }
        proof {
            lemma_lex_total(v.deep_view()[i as int], s@);
            if v.deep_view()[i as int] == s@ {
                lemma_lex_refl(s@);
            }
        }
        i += 1;
    }
    // Every held string is strictly before s: append.
    let ghost dv0 = v.deep_view();
    let owned = s.to_owned();
    v.push(owned);
    proof {
        assert(v.deep_view() =~= dv0.insert(dv0.len() as int, s@));
        lemma_insert_membership(dv0, dv0.len() as int, s@);
        let dv = v.deep_view();
        assert forall|p: int, q: int| 0 <= p < q < dv.len() implies lex_le(
            #[trigger] dv[p],
            #[trigger] dv[q],
        ) by {
            assert(dv[p] == dv0[p]);
            if q < dv.len() - 1 {
                assert(dv[q] == dv0[q]);
            } else {
                assert(dv[q] == s@);
                assert(lex_lt(dv0[p], s@));
            }
        }
        assert forall|p: int, q: int| 0 <= p < q < dv.len() implies #[trigger] dv[p]
            != #[trigger] dv[q] by {
            assert(dv[p] == dv0[p]);
            if q < dv.len() - 1 {
                assert(dv[q] == dv0[q]);
            } else {
                assert(lex_lt(dv0[p], s@));
            }
        }
    }
}

/// A sorted, duplicate-free sequence is determined by the set of strings it
/// holds: two such sequences holding the same strings are equal.
pub proof fn lemma_sorted_unique(s1: Seq<Seq<char>>, s2: Seq<Seq<char>>)
    requires
        sorted_lex(s1),
        sorted_lex(s2),
        s1.no_duplicates(),
        s2.no_duplicates(),
        forall|x: Seq<char>| s1.contains(x) <==> s2.contains(x),
    ensures
        s1 == s2,
    decreases s1.len(),
{
    if s1.len() == 0 {
        if s2.len() > 0 {
            assert(s2.contains(s2[0]));
        }
        assert(s1 =~= s2);
    } else {
        assert(s1.contains(s1[0]));
        assert(s2.contains(s1[0]));
        assert(s2.len() > 0);
        assert(s2.contains(s2[0]));
        assert(s1.contains(s2[0]));
        let i = choose|i: int| 0 <= i < s2.len() && s2[i] == s1[0];
        let j = choose|j: int| 0 <= j < s1.len() && s1[j] == s2[0];
        if i > 0 {
            assert(lex_le(s2[0], s2[i]));
        } else {
            lemma_lex_refl(s1[0]);
        }
        if j > 0 {
            assert(lex_le(s1[0], s1[j]));
        } else {
            lemma_lex_refl(s2[0]);
        }
        lemma_lex_antisym(s1[0], s2[0]);
        let t1 = s1.drop_first();
        let t2 = s2.drop_first();
        assert forall|x: Seq<char>| t1.contains(x) implies t2.contains(x) by {
            let p = choose|p: int| 0 <= p < t1.len() && t1[p] == x;
            assert(s1[p + 1] == x);
            assert(x != s1[0]);
            assert(s1.contains(x)) by {
                assert(s1[p + 1] == x);
            }
            let q = choose|q: int| 0 <= q < s2.len() && s2[q] == x;
            assert(q != 0);
            assert(t2[q - 1] == x);
        }
        assert forall|x: Seq<char>| t2.contains(x) implies t1.contains(x) by {
            let p = choose|p: int| 0 <= p < t2.len() && t2[p] == x;
            assert(s2[p + 1] == x);
            assert(x != s2[0]);
            assert(s2.contains(x)) by {
                assert(s2[p + 1] == x);
            }
            let q = choose|q: int| 0 <= q < s1.len() && s1[q] == x;
            assert(q != 0);
            assert(t1[q - 1] == x);
        }
        assert(sorted_lex(t1)) by {
            assert forall|p: int, q: int| 0 <= p < q < t1.len() implies lex_le(
                #[trigger] t1[p],
                #[trigger] t1[q],
            ) by {
                assert(t1[p] == s1[p + 1]);
                assert(t1[q] == s1[q + 1]);
            }
        }
        assert(sorted_lex(t2)) by {
            assert forall|p: int, q: int| 0 <= p < q < t2.len() implies lex_le(
                #[trigger] t2[p],
                #[trigger] t2[q],
            ) by {
                assert(t2[p] == s2[p + 1]);
                assert(t2[q] == s2[q + 1]);
            }
        }
        assert(t1.no_duplicates()) by {
            assert forall|p: int, q: int| 0 <= p < q < t1.len() implies #[trigger] t1[p]
                != #[trigger] t1[q] by {
                assert(t1[p] == s1[p + 1]);
                assert(t1[q] == s1[q + 1]);
            }
        }
        assert(t2.no_duplicates()) by {
            assert forall|p: int, q: int| 0 <= p < q < t2.len() implies #[trigger] t2[p]
                != #[trigger] t2[q] by {
                assert(t2[p] == s2[p + 1]);
                assert(t2[q] == s2[q + 1]);
            }
        }
        lemma_sorted_unique(t1, t2);
        assert(s1.len() == s2.len());
        assert forall|x: int| 0 <= x < s1.len() implies s1[x] == s2[x] by {
            if x > 0 {
                assert(t1[x - 1] == t2[x - 1]);
            }
        }
        assert(s1 =~= s2);
    }
}

} // verus!
