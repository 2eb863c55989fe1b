use vstd::prelude::*;
use vstd::string::StrSliceExecFns;

verus! {

/// Relies on String::push: appends one character to the string.
#[verifier::external_body]
pub fn push_char(s: &mut String, c: char)
    ensures
        final(s)@ == old(s)@.push(c),
{
    s.push(c)
}

/// An upper-case ASCII letter mapped to its lower-case form; any other
/// character is unchanged.
pub open spec fn to_ascii_lower(c: char) -> char {
    if 65 <= (c as u32) && (c as u32) <= 90 {
        (((c as u32) + 32) as u8) as char
    } else {
        c
    }
}

/// The sequence with every character lower-cased (ASCII letters only).
pub open spec fn lower_seq(s: Seq<char>) -> Seq<char> {
    Seq::new(s.len(), |i: int| to_ascii_lower(s[i]))
}

/// How many leading separator dots the sequence carries.
pub open spec fn dot_prefix_len(s: Seq<char>) -> int
    decreases s.len(),
{
    if s.len() > 0 && s[0] == '.' {
        1 + dot_prefix_len(s.drop_first())
    } else {
        0
    }
}

/// The sequence with every leading separator dot removed.
pub open spec fn strip_leading_dots(s: Seq<char>) -> Seq<char> {
    s.skip(dot_prefix_len(s))
}

/// A position bounds the dot prefix exactly when everything before it is a
/// dot and it is not itself a dot (or the end).
proof fn lemma_dot_prefix(s: Seq<char>, i: int)
    requires
        0 <= i <= s.len(),
        forall|j: int| 0 <= j < i ==> s[j] == '.',
        i == s.len() || s[i] != '.',
    ensures
        dot_prefix_len(s) == i,
    decreases i,
{
    if i == 0 {
        if s.len() > 0 {
            assert(s[0] != '.');
        }
    } else {
        assert(s[0] == '.');
        let t = s.drop_first();
        assert forall|j: int| 0 <= j < i - 1 implies t[j] == '.' by {
            assert(t[j] == s[j + 1]);
        }
        if i - 1 < t.len() {
            assert(t[i - 1] == s[i]);
        }
        lemma_dot_prefix(t, i - 1);
    }
}

/// Whether `s` ends with `t`.
pub open spec fn seq_ends_with(s: Seq<char>, t: Seq<char>) -> bool {
    t.len() <= s.len() && s.skip(s.len() - t.len()) == t
}

/// Whether `s` ends with `t`.
pub fn str_ends_with(s: &str, t: &str) -> (r: bool)
    ensures
        r == seq_ends_with(s@, t@),
{
    let n = s.unicode_len();
    let m = t.unicode_len();
    if m > n {
        return false;
    }
    let off = n - m;
    let mut i: usize = 0;
    while i < m
        invariant
            0 <= i <= m,
            m <= n,
            off == n - m,
            n == s@.len(),
            m == t@.len(),
            forall|j: int| 0 <= j < i ==> s@[off + j] == t@[j],
        decreases m - i,
    {
        let cs = s.get_char(off + i);
        let ct = t.get_char(i);
        if cs != ct {
            proof {
                if seq_ends_with(s@, t@) {
                    assert(s@.skip(off as int)[i as int] == t@[i as int]);
                }
            }
            return false;
        }
        i += 1;
    }
    proof {
        assert(s@.skip(off as int) =~= t@);
    }
    true
}

/// An ASCII whitespace character.
pub open spec fn is_ws(c: char) -> bool {
    c == ' ' || c == '\t' || c == '\r' || c == '\n'
}

/// How many whitespace characters the sequence starts with.
pub open spec fn ws_prefix_len(s: Seq<char>) -> int
    decreases s.len(),
{
    if s.len() > 0 && is_ws(s[0]) {
        1 + ws_prefix_len(s.drop_first())
    } else {
        0
    }
}

/// How many whitespace characters the sequence ends with.
pub open spec fn ws_suffix_len(s: Seq<char>) -> int
    decreases s.len(),
{
    if s.len() > 0 && is_ws(s.last()) {
        1 + ws_suffix_len(s.drop_last())
    } else {
        0
    }
}

/// The sequence with its ASCII whitespace margins removed.
pub open spec fn trim_spec(s: Seq<char>) -> Seq<char> {
    let rest = s.skip(ws_prefix_len(s));
    rest.take(rest.len() - ws_suffix_len(rest))
}

proof fn lemma_ws_prefix(s: Seq<char>, i: int)
    requires
        0 <= i <= s.len(),
        forall|j: int| 0 <= j < i ==> is_ws(s[j]),
        i == s.len() || !is_ws(s[i]),
    ensures
        ws_prefix_len(s) == i,
    decreases i,
{
    if i == 0 {
        if s.len() > 0 {
            assert(!is_ws(s[0]));
        }
    } else {
        assert(is_ws(s[0]));
        let t = s.drop_first();
        assert forall|j: int| 0 <= j < i - 1 implies is_ws(t[j]) by {
            assert(t[j] == s[j + 1]);
        }
        if i - 1 < t.len() {
            assert(t[i - 1] == s[i]);
        }
        lemma_ws_prefix(t, i - 1);
    }
}

proof fn lemma_ws_suffix(s: Seq<char>, k: int)
    requires
        0 <= k <= s.len(),
        forall|j: int| k <= j < s.len() ==> is_ws(s[j]),
        k == 0 || !is_ws(s[k - 1]),
    ensures
        ws_suffix_len(s) == s.len() - k,
    decreases s.len() - k,
{
    if k == s.len() {
        if s.len() > 0 {
            assert(!is_ws(s.last()));
        }
    } else {
        assert(is_ws(s.last()));
        let t = s.drop_last();
        assert forall|j: int| k <= j < t.len() implies is_ws(t[j]) by {
            assert(t[j] == s[j]);
        }
        if k > 0 {
            assert(t[k - 1] == s[k - 1]);
        }
        lemma_ws_suffix(t, k);
    }
}

/// Whether the character is ASCII whitespace.
fn is_ws_char(c: char) -> (r: bool)
    ensures
        r == is_ws(c),
{
    c == ' ' || c == '\t' || c == '\r' || c == '\n'
}

/// The string with its ASCII whitespace margins removed.
pub fn trim_str<'a>(s: &'a str) -> (r: &'a str)
    ensures
        r@ == trim_spec(s@),
{
    let n = s.unicode_len();
    let mut start: usize = 0;
    while start < n && is_ws_char(s.get_char(start))
        invariant
            0 <= start <= n,
            n == s@.len(),
            forall|j: int| 0 <= j < start ==> is_ws(s@[j]),
        decreases n - start,
    {
        start += 1;
    }
    let mut end: usize = n;
    while end > start && is_ws_char(s.get_char(end - 1))
        invariant
            start <= end <= n,
            n == s@.len(),
            forall|j: int| end <= j < n ==> is_ws(s@[j]),
        decreases end,
    {
        end -= 1;
    }
    proof {
        lemma_ws_prefix(s@, start as int);
        let rest = s@.skip(start as int);
        assert forall|j: int| (end - start) <= j < rest.len() implies is_ws(rest[j]) by {
            assert(rest[j] == s@[start + j]);
        }
        if end > start {
            assert(rest[end - start - 1] == s@[end - 1]);
        }
        lemma_ws_suffix(rest, end - start);
    }
    let r = s.substring_char(start, end);
    proof {
        let rest = s@.skip(start as int);
        assert(r@ =~= rest.take(end - start));
    }
    r
}

/// Whether `t` occurs in `s` as a contiguous run.
pub open spec fn seq_contains_sub(s: Seq<char>, t: Seq<char>) -> bool {
    exists|k: int|
        0 <= k && k + t.len() <= s.len() && #[trigger] s.subrange(k, k + t.len()) == t
}

/// Whether `t` starts at position `k` of `s`.
fn matches_at(s: &str, t: &str, k: usize) -> (r: bool)
    requires
        k + t@.len() <= s@.len(),
    ensures
        r == (s@.subrange(k as int, k as int + t@.len() as int) == t@),
{
    let n = s.unicode_len();
    let m = t.unicode_len();
    let mut j: usize = 0;
    while j < m
        invariant
            0 <= j <= m,
            m == t@.len(),
            n == s@.len(),
            k + m <= n,
            forall|p: int| 0 <= p < j ==> s@[k + p] == t@[p],
        decreases m - j,
    {
        let cs = s.get_char(k + j);
        let ct = t.get_char(j);
        if cs != ct {
            proof {
                if s@.subrange(k as int, k as int + m as int) == t@ {
                    assert(s@.subrange(k as int, k as int + m as int)[j as int] == t@[
                        j as int]);
                }
            }
            return false;
        }
        j += 1;
    }
    proof {
        assert(s@.subrange(k as int, k as int + m as int) =~= t@);
    }
    true
}

/// Whether `t` occurs in `s` as a contiguous run.
pub fn str_contains(s: &str, t: &str) -> (r: bool)
    ensures
        r == seq_contains_sub(s@, t@),
{
    let n = s.unicode_len();
    let m = t.unicode_len();
    if m > n {
        proof {
            if seq_contains_sub(s@, t@) {
                let k = choose|k: int|
                    0 <= k && k + t@.len() <= s@.len() && #[trigger] s@.subrange(
                        k,
                        k + t@.len(),
                    ) == t@;
            }
        }
        return false;
    }
    if m == 0 {
        proof {
            assert(s@.subrange(0int, 0int + t@.len() as int) =~= t@);
            assert(seq_contains_sub(s@, t@));
        }
        return true;
    }
    let mut k: usize = 0;
    while k <= n - m
        invariant
            0 <= k <= n - m + 1,
            0 < m <= n,
            n == s@.len(),
            m == t@.len(),
            forall|p: int| 0 <= p < k ==> #[trigger] s@.subrange(p, p + t@.len()) != t@,
        decreases n - k,
    {
        if matches_at(s, t, k) {
            return true;
        }
        k += 1;
    }
    proof {
        if seq_contains_sub(s@, t@) {
            let p = choose|p: int|
                0 <= p && p + t@.len() <= s@.len() && #[trigger] s@.subrange(
                    p,
                    p + t@.len(),
                ) == t@;
            assert(s@.subrange(p, p + t@.len()) != t@);
        }
    }
    false
}

/// The largest position holding `c`, or -1 when `c` does not occur.
pub open spec fn last_index_of(s: Seq<char>, c: char) -> int
    decreases s.len(),
{
    if s.len() == 0 {
        -1
    } else if s.last() == c {
        s.len() - 1
    } else {
        last_index_of(s.drop_last(), c)
    }
}

proof fn lemma_last_index(s: Seq<char>, c: char, i: int)
    requires
        -1 <= i < s.len(),
        i >= 0 ==> s[i] == c,
        forall|j: int| i < j < s.len() ==> s[j] != c,
    ensures
        last_index_of(s, c) == i,
    decreases s.len(),
{
    if s.len() > 0 {
        if i == s.len() - 1 {
        } else {
            assert(s.last() != c);
            let t = s.drop_last();
            assert forall|j: int| i < j < t.len() implies t[j] != c by {
                assert(t[j] == s[j]);
            }
            if i >= 0 {
                assert(t[i] == s[i]);
            }
            lemma_last_index(t, c, i);
        }
    }
}

/// The last component of a path: everything after the last separator.
pub open spec fn file_name_spec(p: Seq<char>) -> Seq<char> {
    p.skip(last_index_of(p, '/') + 1)
}

/// The stem of a path's last component: nothing when the component is
/// empty; the whole component when it has no dot, or when its only dot is
/// its first character; otherwise everything before the last dot.
pub open spec fn file_stem_spec(p: Seq<char>) -> Option<Seq<char>> {
    let name = file_name_spec(p);
    if name.len() == 0 {
        Option::None
    } else {
        let d = last_index_of(name, '.');
        if d <= 0 {
            Option::Some(name)
        } else {
            Option::Some(name.take(d))
        }
    }
}

/// The largest position of `c` in the string, if `c` occurs at all.
pub fn last_char_index(s: &str, c: char) -> (r: Option<usize>)
    ensures
        match r {
            Some(i) => last_index_of(s@, c) == i && i < s@.len(),
            None => last_index_of(s@, c) == -1,
        },
{
    let n = s.unicode_len();
    let mut i: usize = n;
    while i > 0
        invariant
            0 <= i <= n,
            n == s@.len(),
            forall|j: int| i <= j < n ==> s@[j] != c,
        decreases i,
    {
        let ch = s.get_char(i - 1);
        if ch == c {
            proof {
                lemma_last_index(s@, c, i - 1);
            }
            return Some(i - 1);
        }
        i -= 1;
    }
    proof {
        lemma_last_index(s@, c, -1);
    }
    None
}

/// The string with every leading dot removed.
pub fn strip_dots_str<'a>(s: &'a str) -> (r: &'a str)
    ensures
        r@ == strip_leading_dots(s@),
{
    let n = s.unicode_len();
    let mut i: usize = 0;
    while i < n && s.get_char(i) == '.'
        invariant
            0 <= i <= n,
            n == s@.len(),
            forall|j: int| 0 <= j < i ==> s@[j] == '.',
        decreases n - i,
    {
        i += 1;
    }
    proof {
        lemma_dot_prefix(s@, i as int);
    }
    let r = s.substring_char(i, n);
    proof {
        assert(r@ =~= s@.skip(i as int));
    }
    r
}

/// The string with its ASCII letters lower-cased.
pub fn lower_string(s: &str) -> (r: String)
    ensures
        r@ == lower_seq(s@),
{
    let n = s.unicode_len();
    let mut out = String::new();
    let mut i: usize = 0;
    while i < n
        invariant
            0 <= i <= n,
            n == s@.len(),
            out@.len() == i,
            forall|j: int| 0 <= j < i ==> #[trigger] out@[j] == to_ascii_lower(s@[j]),
        decreases n - i,
    {
        let c = s.get_char(i);
        let cu = c as u32;
        let lc: char = if 65 <= cu && cu <= 90 {
            ((cu + 32) as u8) as char
        } else {
            c
        };
        push_char(&mut out, lc);
        i += 1;
    }
    proof {
        assert(out@ =~= lower_seq(s@));
    }
    out
}

/// Normalizes a raw suffix string: every leading dot is stripped and ASCII
/// letters are lower-cased.
pub fn normalize_suffix(s: &str) -> (r: String)
    ensures
        r@ == lower_seq(strip_leading_dots(s@)),
{
    let n = s.unicode_len();
    let mut i: usize = 0;
    while i < n && s.get_char(i) == '.'
        invariant
            0 <= i <= n,
            n == s@.len(),
            forall|j: int| 0 <= j < i ==> s@[j] == '.',
        decreases n - i,
    {
        i += 1;
    }
    let start = i;
    proof {
        lemma_dot_prefix(s@, start as int);
    }
    let mut out = String::new();
    while i < n
        invariant
            start <= i <= n,
            n == s@.len(),
            start == dot_prefix_len(s@),
            out@.len() == i - start,
            forall|j: int| 0 <= j < i - start ==> #[trigger] out@[j] == to_ascii_lower(
                s@[start + j]),
        decreases n - i,
    {
        let c = s.get_char(i);
        let cu = c as u32;
        let lc: char = if 65 <= cu && cu <= 90 {
            ((cu + 32) as u8) as char
        } else {
            c
        };
        push_char(&mut out, lc);
        i += 1;
    }
    proof {
        let stripped = strip_leading_dots(s@);
        assert(stripped.len() == n - start);
        assert forall|j: int| 0 <= j < stripped.len() implies lower_seq(stripped)[j]
            == out@[j] by {
            assert(stripped[j] == s@[start + j]);
        }
        assert(out@ =~= lower_seq(stripped));
    }
    out
}

/// The decimal digit character of a value below ten.
pub open spec fn digit_char(d: int) -> char {
    ((48 + d) as u8) as char
}

/// The decimal digits of a non-negative number, most significant first.
pub open spec fn dec_rep(n: int) -> Seq<char>
    decreases n,
{
    if n < 10 {
        seq![digit_char(if n >= 0 { n } else { 0 })]
    } else {
        dec_rep(n / 10).push(digit_char(n % 10))
    }
}

/// The decimal rendering of an integer, with a sign for a negative one.
pub open spec fn int_rep(i: int) -> Seq<char> {
    if i < 0 {
        seq!['-'] + dec_rep(-i)
    } else {
        dec_rep(i)
    }
}

/// The decimal rendering of a signed 32-bit value.
pub fn i32_to_string(v: i32) -> (r: String)
    ensures
        r@ == int_rep(v as int),
{
    let negative = v < 0;
    let wide: i64 = v as i64;
    let mut m: u64 = if negative {
        (-wide) as u64
    } else {
        wide as u64
    };
    let ghost m0 = m as int;
    let mut ds: Vec<char> = Vec::new();
    let ghost mut tail = Seq::<char>::empty();
    proof {
        assert(dec_rep(m0) =~= dec_rep(m0) + tail);
    }
    loop
        invariant_except_break
            0 <= m <= m0,
            dec_rep(m0) == dec_rep(m as int) + tail,
            ds@.len() == tail.len(),
            forall|k: int| 0 <= k < ds@.len() ==> #[trigger] ds@[k] == tail[tail.len() - 1 - k],
        ensures
            dec_rep(m0) == tail,
            ds@.len() == tail.len(),
            forall|k: int| 0 <= k < ds@.len() ==> #[trigger] ds@[k] == tail[tail.len() - 1 - k],
        decreases m,
    {
        let d = (m % 10) as u8;
        let c: char = (48 + d) as char;
        let ghost tail0 = tail;
        proof {
            tail = seq![digit_char(m as int % 10)] + tail0;
        }
        ds.push(c);
        if m < 10 {
            proof {
                assert(dec_rep(m as int) =~= seq![digit_char(m as int)]);
                assert(dec_rep(m as int) + tail0 =~= tail);
                assert(dec_rep(m0) =~= tail);
            }
            break ;
        }
        proof {
            assert(dec_rep(m as int) + tail0 =~= dec_rep(m as int / 10) + tail);
        }
        m = m / 10;
    }
    let mut out = String::new();
    if negative {
        push_char(&mut out, '-');
    }
    let ghost sign = out@;
    let total = ds.len();
    let mut j: usize = total;
    while j > 0
        invariant
            0 <= j <= total,
            total == ds@.len(),
            total == tail.len(),
            forall|k: int| 0 <= k < total ==> #[trigger] ds@[k] == tail[total - 1 - k],
            out@ == sign + tail.take(total - j),
        decreases j,
    {
        let c = ds[j - 1];
        push_char(&mut out, c);
        proof {
            assert(out@ =~= sign + tail.take(total - j + 1));
        }
        j -= 1;
    }
    proof {
        assert(tail.take(total as int) =~= tail);
        assert(dec_rep(m0) == tail);
        if negative {
            assert(m0 == -(v as int));
            assert(out@ =~= int_rep(v as int));
        } else {
            assert(sign =~= Seq::<char>::empty());
            assert(out@ =~= int_rep(v as int));
        }
    }
    out
}

} // verus!
