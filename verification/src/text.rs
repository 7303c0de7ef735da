//! Text helpers over the characters of a string.

use vstd::prelude::*;

verus! {

/// The characters of `s`, in order.
pub fn chars_of(s: &str) -> (r: Vec<char>)
    ensures
        r@ == s@,
{
    let mut out: Vec<char> = Vec::new();
    for c in it: s.chars()
        invariant
            out@ == it.seq().take(it.index() as int),
    {
        out.push(c);
    }
    out
}

} // verus!

verus! {

/// The text made of the characters `cs`.
#[verifier::external_body]
pub(crate) fn string_from_chars(cs: &Vec<char>) -> (r: String)
    ensures
        r@ == cs@,
{
    String::from_iter(cs.iter())
}

/// What `str::to_uppercase` returns: the Unicode upper-case mapping of a text.
pub uninterp spec fn unicode_uppercase(s: Seq<char>) -> Seq<char>;

/// `str::to_uppercase`; its result is named `unicode_uppercase`.
#[verifier::external_body]
pub(crate) fn to_uppercase(s: &str) -> (r: String)
    ensures
        r@ == unicode_uppercase(s@),
{
    s.to_uppercase()
}

/// The Unicode `White_Space` property, which `char::is_whitespace` tests.
pub open spec fn is_unicode_whitespace(c: char) -> bool {
    let n = c as u32;
    ||| 0x09 <= n <= 0x0D
    ||| n == 0x20
    ||| n == 0x85
    ||| n == 0xA0
    ||| n == 0x1680
    ||| 0x2000 <= n <= 0x200A
    ||| n == 0x2028
    ||| n == 0x2029
    ||| n == 0x202F
    ||| n == 0x205F
    ||| n == 0x3000
}

pub fn is_whitespace(c: char) -> (r: bool)
    ensures
        r == is_unicode_whitespace(c),
{
    let n = c as u32;
    (0x09 <= n && n <= 0x0D) || n == 0x20 || n == 0x85 || n == 0xA0 || n == 0x1680 || (0x2000
        <= n && n <= 0x200A) || n == 0x2028 || n == 0x2029 || n == 0x202F || n == 0x205F || n
        == 0x3000
}

/// `s` without its leading white space.
pub open spec fn trim_start(s: Seq<char>) -> Seq<char>
    decreases s.len(),
{
    if s.len() > 0 && is_unicode_whitespace(s[0]) {
        trim_start(s.drop_first())
    } else {
        s
    }
}

/// `s` without its trailing white space.
pub open spec fn trim_end(s: Seq<char>) -> Seq<char>
    decreases s.len(),
{
    if s.len() > 0 && is_unicode_whitespace(s.last()) {
        trim_end(s.drop_last())
    } else {
        s
    }
}

/// `s` without leading and trailing white space, as `str::trim` gives it.
pub open spec fn trim(s: Seq<char>) -> Seq<char> {
    trim_end(trim_start(s))
}

proof fn lemma_trim_start_range(s: Seq<char>, lo: int)
    requires
        0 <= lo <= s.len(),
        forall|k: int| 0 <= k < lo ==> is_unicode_whitespace(#[trigger] s[k]),
        lo == s.len() || !is_unicode_whitespace(s[lo]),
    ensures
        trim_start(s) == s.subrange(lo, s.len() as int),
    decreases lo,
{
    if lo > 0 {
        let t = s.drop_first();
        assert forall|k: int| 0 <= k < lo - 1 implies is_unicode_whitespace(#[trigger] t[k]) by {
            assert(t[k] == s[k + 1]);
        }
        lemma_trim_start_range(t, lo - 1);
        assert(t.subrange(lo - 1, t.len() as int) =~= s.subrange(lo, s.len() as int));
    } else {
        assert(s.subrange(0, s.len() as int) =~= s);
    }
}

proof fn lemma_trim_end_range(s: Seq<char>, hi: int)
    requires
        0 <= hi <= s.len(),
        forall|k: int| hi <= k < s.len() ==> is_unicode_whitespace(#[trigger] s[k]),
        hi == 0 || !is_unicode_whitespace(s[hi - 1]),
    ensures
        trim_end(s) == s.subrange(0, hi),
    decreases s.len() - hi,
{
    if hi < s.len() {
        let t = s.drop_last();
        assert forall|k: int| hi <= k < t.len() implies is_unicode_whitespace(#[trigger] t[k]) by {
            assert(t[k] == s[k]);
        }
        lemma_trim_end_range(t, hi);
        assert(t.subrange(0, hi) =~= s.subrange(0, hi));
    } else {
        assert(s.subrange(0, hi) =~= s);
    }
}

/// The characters of `cs[start..end]` without leading and trailing white space.
pub fn trim_chars(cs: &Vec<char>, start: usize, end: usize) -> (r: Vec<char>)
    requires
        start <= end <= cs.len(),
    ensures
        r@ == trim(cs@.subrange(start as int, end as int)),
{
    let ghost s = cs@.subrange(start as int, end as int);
    let mut lo = start;
    while lo < end && is_whitespace(cs[lo])
        invariant
            start <= lo <= end <= cs.len(),
            s == cs@.subrange(start as int, end as int),
            forall|k: int| start <= k < lo ==> is_unicode_whitespace(#[trigger] cs@[k]),
        decreases end - lo,
    {
        lo = lo + 1;
    }
    proof {
        assert forall|k: int| 0 <= k < lo - start implies is_unicode_whitespace(#[trigger] s[k]) by {
            assert(s[k] == cs@[start + k]);
        }
        lemma_trim_start_range(s, lo - start);
    }
    let mut hi = end;
    while hi > lo && is_whitespace(cs[hi - 1])
        invariant
            start <= lo <= hi <= end <= cs.len(),
            forall|k: int| hi <= k < end ==> is_unicode_whitespace(#[trigger] cs@[k]),
        decreases hi - lo,
    {
        hi = hi - 1;
    }
    let ghost t = s.subrange(lo - start, s.len() as int);
    proof {
        assert(t =~= cs@.subrange(lo as int, end as int));
        assert forall|k: int| hi - lo <= k < t.len() implies is_unicode_whitespace(#[trigger] t[k]) by {
            assert(t[k] == cs@[lo + k]);
        }
        lemma_trim_end_range(t, hi - lo);
    }
    let mut out: Vec<char> = Vec::new();
    let mut i = lo;
    while i < hi
        invariant
            lo <= i <= hi <= cs.len(),
            out@ == cs@.subrange(lo as int, i as int),
        decreases hi - i,
    {
        out.push(cs[i]);
        i = i + 1;
        proof {
            assert(out@ =~= cs@.subrange(lo as int, i as int));
        }
    }
    proof {
        assert(t.subrange(0, hi - lo) =~= cs@.subrange(lo as int, hi as int));
    }
    out
}

/// `s` begins with `p`.
pub open spec fn has_prefix(s: Seq<char>, p: Seq<char>) -> bool {
    p.len() <= s.len() && s.subrange(0, p.len() as int) == p
}

/// `cs[start..]` begins with `p`.
pub fn starts_with_at(cs: &Vec<char>, start: usize, p: &Vec<char>) -> (r: bool)
    requires
        start <= cs.len(),
    ensures
        r == has_prefix(cs@.subrange(start as int, cs.len() as int), p@),
{
    let ghost s = cs@.subrange(start as int, cs.len() as int);
    if p.len() > cs.len() - start {
        return false;
    }
    let mut i: usize = 0;
    while i < p.len()
        invariant
            start + p.len() <= cs.len(),
            i <= p.len(),
            s == cs@.subrange(start as int, cs.len() as int),
            forall|k: int| 0 <= k < i ==> cs@[start + k] == p@[k],
        decreases p.len() - i,
    {
        if cs[start + i] != p[i] {
            proof {
                assert(s.subrange(0, p.len() as int)[i as int] == cs@[start + i]);
            }
            return false;
        }
        i = i + 1;
    }
    proof {
        assert(s.subrange(0, p.len() as int) =~= p@);
    }
    true
}

/// `c` occurs in `s`.
pub fn contains_char(s: &str, c: char) -> (r: bool)
    ensures
        r == s@.contains(c),
{
    let cs = chars_of(s);
    let mut i: usize = 0;
    while i < cs.len()
        invariant
            cs@ == s@,
            i <= cs.len(),
            forall|k: int| 0 <= k < i ==> cs@[k] != c,
        decreases cs.len() - i,
    {
        if cs[i] == c {
            return true;
        }
        i = i + 1;
    }
    false
}

/// `a` comes strictly before `b` in code-point lexicographic order, the order of
/// `String`'s `Ord`.
pub open spec fn text_lt(a: Seq<char>, b: Seq<char>) -> bool
    decreases a.len(),
{
    if a.len() == 0 {
        b.len() > 0
    } else if b.len() == 0 {
        false
    } else if a[0] != b[0] {
        a[0] < b[0]
    } else {
        text_lt(a.drop_first(), b.drop_first())
    }
}

pub proof fn lemma_text_lt_irreflexive(a: Seq<char>)
    ensures
        !text_lt(a, a),
    decreases a.len(),
{
    if a.len() > 0 {
        lemma_text_lt_irreflexive(a.drop_first());
    }
}

pub proof fn lemma_text_lt_transitive(a: Seq<char>, b: Seq<char>, c: Seq<char>)
    requires
        text_lt(a, b),
        text_lt(b, c),
    ensures
        text_lt(a, c),
    decreases a.len(),
{
    if a.len() > 0 && b.len() > 0 && c.len() > 0 && a[0] == b[0] && b[0] == c[0] {
        lemma_text_lt_transitive(a.drop_first(), b.drop_first(), c.drop_first());
    }
}

pub proof fn lemma_text_lt_total(a: Seq<char>, b: Seq<char>)
    ensures
        a == b || text_lt(a, b) || text_lt(b, a),
    decreases a.len(),
{
    if a.len() > 0 && b.len() > 0 {
        if a[0] == b[0] {
            lemma_text_lt_total(a.drop_first(), b.drop_first());
            if a.drop_first() == b.drop_first() {
                assert(a =~= seq![a[0]] + a.drop_first());
                assert(b =~= seq![b[0]] + b.drop_first());
            }
        }
    } else if a.len() == 0 && b.len() == 0 {
        assert(a =~= b);
    }
}

pub proof fn lemma_text_lt_asymmetric(a: Seq<char>, b: Seq<char>)
    requires
        text_lt(a, b),
    ensures
        !text_lt(b, a),
{
    if text_lt(b, a) {
        lemma_text_lt_transitive(a, b, a);
        lemma_text_lt_irreflexive(a);
    }
}

/// `a` comes strictly before `b` in code-point lexicographic order.
pub fn chars_less(a: &Vec<char>, b: &Vec<char>) -> (r: bool)
    ensures
        r == text_lt(a@, b@),
{
    let mut i: usize = 0;
    proof {
        assert(a@.subrange(0, a.len() as int) =~= a@);
        assert(b@.subrange(0, b.len() as int) =~= b@);
    }
    while i < a.len() && i < b.len() && a[i] == b[i]
        invariant
            i <= a.len(),
            i <= b.len(),
            text_lt(a@, b@) == text_lt(a@.subrange(i as int, a.len() as int), b@.subrange(i as int, b.len() as int)),
        decreases a.len() - i,
    {
        proof {
            let sa = a@.subrange(i as int, a.len() as int);
            let sb = b@.subrange(i as int, b.len() as int);
            assert(sa.drop_first() =~= a@.subrange(i + 1, a.len() as int));
            assert(sb.drop_first() =~= b@.subrange(i + 1, b.len() as int));
        }
        i = i + 1;
    }
    proof {
        let sa = a@.subrange(i as int, a.len() as int);
        let sb = b@.subrange(i as int, b.len() as int);
        if i < a.len() && i < b.len() {
            assert(sa[0] == a@[i as int]);
            assert(sb[0] == b@[i as int]);
        }
    }
    if i == a.len() {
        i < b.len()
    } else if i == b.len() {
        false
    } else {
        a[i] < b[i]
    }
}

/// `c` with an ASCII upper-case letter turned into lower case.
pub open spec fn ascii_lower(c: char) -> char {
    if 'A' <= c && c <= 'Z' {
        ((c as u8) + 32) as char
    } else {
        c
    }
}

/// `a` and `b` are equal up to ASCII letter case, as `str::eq_ignore_ascii_case` tests.
pub open spec fn eq_ignoring_ascii_case(a: Seq<char>, b: Seq<char>) -> bool {
    a.len() == b.len() && forall|i: int| 0 <= i < a.len() ==> ascii_lower(#[trigger] a[i]) == ascii_lower(b[i])
}

/// Characters `c` and `d` are the same, or the two cases of one ASCII letter.
pub open spec fn same_up_to_ascii_case(c: char, d: char) -> bool {
    ||| c == d
    ||| ('A' <= c <= 'Z' && d as u32 == c as u32 + 32)
    ||| ('A' <= d <= 'Z' && c as u32 == d as u32 + 32)
}

proof fn lemma_ascii_lower_matches(c: char, d: char)
    ensures
        ascii_lower(c) == ascii_lower(d) <==> same_up_to_ascii_case(c, d),
{
    assert('A' <= c <= 'Z' ==> ascii_lower(c) as u32 == c as u32 + 32) by {
        if 'A' <= c <= 'Z' {
            assert((c as u8) as u32 == c as u32);
        }
    }
    assert('A' <= d <= 'Z' ==> ascii_lower(d) as u32 == d as u32 + 32) by {
        if 'A' <= d <= 'Z' {
            assert((d as u8) as u32 == d as u32);
        }
    }
}

/// Two texts are equal up to ASCII case exactly when they have the same length
/// and every character of one, the last included, is the character of the
/// other at that position or its other ASCII case.
pub proof fn lemma_eq_ignoring_ascii_case_compares_every_character(a: Seq<char>, b: Seq<char>)
    ensures
        eq_ignoring_ascii_case(a, b) <==> (a.len() == b.len() && forall|i: int|
            0 <= i < a.len() ==> same_up_to_ascii_case(#[trigger] a[i], b[i])),
{
    assert forall|i: int| 0 <= i < a.len() && i < b.len() implies (ascii_lower(#[trigger] a[i]) == ascii_lower(b[i])
        <==> same_up_to_ascii_case(a[i], b[i])) by {
        lemma_ascii_lower_matches(a[i], b[i]);
    }
}

fn lower_ascii(c: char) -> (r: char)
    ensures
        r == ascii_lower(c),
{
    if 'A' <= c && c <= 'Z' {
        ((c as u8) + 32) as char
    } else {
        c
    }
}

/// `a` and `b` are equal up to ASCII letter case.
pub fn eq_ignore_ascii_case(a: &str, b: &str) -> (r: bool)
    ensures
        r == eq_ignoring_ascii_case(a@, b@),
{
    let x = chars_of(a);
    let y = chars_of(b);
    if x.len() != y.len() {
        return false;
    }
    let mut i: usize = 0;
    while i < x.len()
        invariant
            x@ == a@,
            y@ == b@,
            x.len() == y.len(),
            i <= x.len(),
            forall|k: int| 0 <= k < i ==> ascii_lower(#[trigger] x@[k]) == ascii_lower(y@[k]),
        decreases x.len() - i,
    {
        if lower_ascii(x[i]) != lower_ascii(y[i]) {
            return false;
        }
        i = i + 1;
    }
    true
}

} // verus!
