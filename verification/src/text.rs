//! Character-level text operations: substring search, `str::replace`-style
//! rewriting, whitespace and trimming.
use vstd::prelude::*;

verus! {

/// Appends one character to a `String` (std `String::push`).
#[verifier::external_body]
pub(crate) fn push_char(s: &mut String, c: char)
    ensures
        final(s)@ == old(s)@.push(c),
{
    s.push(c);
}

/// Whether two string slices hold the same text (std `<str as PartialEq>::eq`).
#[verifier::external_body]
pub(crate) fn str_eq(a: &str, b: &str) -> (r: bool)
    ensures
        r == (a@ == b@),
{
    a == b
}

/// The characters of `s`, in order.
pub fn chars_of(s: &str) -> (out: Vec<char>)
    ensures
        out@ == s@,
{
    let mut out: Vec<char> = Vec::new();
    for c in it: s.chars()
        invariant
            out@ == it.seq().take(it.index() as int),
            it.seq() == s@,
    {
        out.push(c);
    }
    out
}

/// Appends the characters `v` to `s`.
pub(crate) fn push_chars(s: &mut String, v: &Vec<char>)
    ensures
        final(s)@ == old(s)@ + v@,
{
    let n = v.len();
    let mut i: usize = 0;
    while i < n
        invariant
            n == v@.len(),
            i <= n,
            s@ == old(s)@ + v@.take(i as int),
        decreases n - i,
    {
        push_char(s, v[i]);
        i = i + 1;
        assert(v@.take(i as int) == v@.take(i - 1).push(v@[i - 1]));
    }
    assert(v@.take(n as int) == v@);
}

/// A `String` holding the characters `v`.
pub(crate) fn string_of(v: &Vec<char>) -> (s: String)
    ensures
        s@ == v@,
{
    let mut s = String::new();
    push_chars(&mut s, v);
    s
}

/// The one-character text `c`.
pub(crate) fn single(c: char) -> (v: Vec<char>)
    ensures
        v@ == seq![c],
{
    let mut v: Vec<char> = Vec::new();
    v.push(c);
    assert(v@ =~= seq![c]);
    v
}

/// The two-character text `a b`.
pub(crate) fn pair(a: char, b: char) -> (v: Vec<char>)
    ensures
        v@ == seq![a, b],
{
    let mut v: Vec<char> = Vec::new();
    v.push(a);
    v.push(b);
    assert(v@ =~= seq![a, b]);
    v
}

/// `pat` occurs in `s` starting at position `k`.
pub open spec fn occurs_at(s: Seq<char>, pat: Seq<char>, k: int) -> bool {
    0 <= k && k + pat.len() <= s.len() && s.subrange(k, k + pat.len()) == pat
}

pub(crate) fn matches_at(s: &Vec<char>, pat: &Vec<char>, k: usize) -> (r: bool)
    requires
        k + pat@.len() <= s@.len(),
    ensures
        r == occurs_at(s@, pat@, k as int),
{
    let m = pat.len();
    let n = s.len();
    let mut t: usize = 0;
    while t < m
        invariant
            m == pat@.len(),
            n == s@.len(),
            k + m <= s@.len(),
            t <= m,
            forall|u: int| 0 <= u < t ==> s@[k + u] == pat@[u],
        decreases m - t,
    {
        if s[k + t] != pat[t] {
            assert(s@.subrange(k as int, k + m)[t as int] != pat@[t as int]);
            return false;
        }
        t = t + 1;
    }
    assert(s@.subrange(k as int, k + m) =~= pat@);
    true
}

/// What std's `str::replace(pat, rep)` makes of `s` for a nonempty `pat`: the
/// occurrences of `pat` found left to right, without overlap, each replaced by `rep`.
pub open spec fn replace_seq(s: Seq<char>, pat: Seq<char>, rep: Seq<char>) -> Seq<char>
    decreases s.len(),
{
    if pat.len() == 0 || s.len() < pat.len() {
        s
    } else if s.take(pat.len() as int) == pat {
        rep + replace_seq(s.skip(pat.len() as int), pat, rep)
    } else {
        seq![s[0]] + replace_seq(s.drop_first(), pat, rep)
    }
}

/// `s` with every character `c` replaced by the text `f(c)`.
pub open spec fn map_chars(s: Seq<char>, f: spec_fn(char) -> Seq<char>) -> Seq<char>
    decreases s.len(),
{
    if s.len() == 0 {
        Seq::<char>::empty()
    } else {
        f(s[0]) + map_chars(s.drop_first(), f)
    }
}

/// Replaces every occurrence of `pat` in `s` by `rep`, as `str::replace` does.
pub fn replace_all(s: &Vec<char>, pat: &Vec<char>, rep: &Vec<char>) -> (out: Vec<char>)
    requires
        pat@.len() > 0,
    ensures
        out@ == replace_seq(s@, pat@, rep@),
{
    let n = s.len();
    let m = pat.len();
    let mut out: Vec<char> = Vec::new();
    let mut i: usize = 0;
    proof {
        assert(s@.skip(0) == s@);
    }
    while i < n
        invariant
            n == s@.len(),
            m == pat@.len(),
            m > 0,
            i <= n,
            replace_seq(s@, pat@, rep@) == out@ + replace_seq(s@.skip(i as int), pat@, rep@),
        decreases n - i,
    {
        let ghost rest = s@.skip(i as int);
        if m <= n - i && matches_at(s, pat, i) {
            let mut t: usize = 0;
            let ghost before = out@;
            while t < rep.len()
                invariant
                    t <= rep@.len(),
                    out@ == before + rep@.take(t as int),
                decreases rep@.len() - t,
            {
                out.push(rep[t]);
                t = t + 1;
                assert(rep@.take(t as int) == rep@.take(t - 1).push(rep@[t - 1]));
            }
            proof {
                assert(rep@.take(rep@.len() as int) == rep@);
                assert(rest.take(m as int) == s@.subrange(i as int, i + m));
                assert(rest.skip(m as int) == s@.skip(i + m));
            }
            i = i + m;
        } else {
            out.push(s[i]);
            proof {
                assert(rest.drop_first() == s@.skip(i + 1));
                if m <= n - i {
                    assert(rest.take(m as int) == s@.subrange(i as int, i + m));
                } else {
                    assert(replace_seq(rest.drop_first(), pat@, rep@) == rest.drop_first());
                    assert(rest == seq![rest[0]] + rest.drop_first());
                }
            }
            i = i + 1;
        }
    }
    proof {
        assert(s@.skip(n as int) =~= Seq::<char>::empty());
    }
    out
}

/// Mapping characters distributes over concatenation.
pub proof fn lemma_map_chars_concat(a: Seq<char>, b: Seq<char>, f: spec_fn(char) -> Seq<char>)
    ensures
        map_chars(a + b, f) == map_chars(a, f) + map_chars(b, f),
    decreases a.len(),
{
    if a.len() == 0 {
        assert(a + b == b);
    } else {
        lemma_map_chars_concat(a.drop_first(), b, f);
        assert((a + b).drop_first() == a.drop_first() + b);
    }
}

/// Two character maps that agree on the characters of `s` give the same text.
pub proof fn lemma_map_chars_agree(
    s: Seq<char>,
    f: spec_fn(char) -> Seq<char>,
    g: spec_fn(char) -> Seq<char>,
)
    requires
        forall|i: int| 0 <= i < s.len() ==> f(s[i]) == g(s[i]),
    ensures
        map_chars(s, f) == map_chars(s, g),
    decreases s.len(),
{
    if s.len() > 0 {
        assert(f(s[0]) == g(s[0]));
        lemma_map_chars_agree(s.drop_first(), f, g);
    }
}

/// Mapping every character to itself leaves the text unchanged.
pub proof fn lemma_map_chars_identity(s: Seq<char>, f: spec_fn(char) -> Seq<char>)
    requires
        forall|i: int| 0 <= i < s.len() ==> f(s[i]) == seq![s[i]],
    ensures
        map_chars(s, f) == s,
    decreases s.len(),
{
    if s.len() > 0 {
        assert(f(s[0]) == seq![s[0]]);
        lemma_map_chars_identity(s.drop_first(), f);
        assert(s == seq![s[0]] + s.drop_first());
    }
}

/// Replacing a single character acts on each character on its own.
pub proof fn lemma_replace_char(s: Seq<char>, p: char, rep: Seq<char>)
    ensures
        replace_seq(s, seq![p], rep) == map_chars(
            s,
            |c: char|
                if c == p {
                    rep
                } else {
                    seq![c]
                },
        ),
    decreases s.len(),
{
    if s.len() > 0 {
        assert(s.take(1) == seq![s[0]]);
        assert(s.skip(1) == s.drop_first());
        lemma_replace_char(s.drop_first(), p, rep);
        if s[0] == p {
            assert(s.take(1) == seq![p]);
        } else {
            assert(s.take(1)[0] != seq![p][0]);
            assert(s.take(1) != seq![p]);
        }
    }
}

/// Replacing a single character in a character-mapped text is itself a character map.
pub proof fn lemma_replace_char_after_map(
    s: Seq<char>,
    f: spec_fn(char) -> Seq<char>,
    p: char,
    rep: Seq<char>,
    g: spec_fn(char) -> Seq<char>,
)
    requires
        forall|i: int|
            0 <= i < s.len() ==> #[trigger] g(s[i]) == replace_seq(f(s[i]), seq![p], rep),
    ensures
        replace_seq(map_chars(s, f), seq![p], rep) == map_chars(s, g),
    decreases s.len(),
{
    let h = |c: char|
        if c == p {
            rep
        } else {
            seq![c]
        };
    if s.len() == 0 {
        lemma_replace_char(map_chars(s, f), p, rep);
    } else {
        let head = f(s[0]);
        let tail = map_chars(s.drop_first(), f);
        lemma_replace_char(head + tail, p, rep);
        lemma_map_chars_concat(head, tail, h);
        lemma_replace_char(head, p, rep);
        lemma_replace_char(tail, p, rep);
        assert(g(s[0]) == replace_seq(f(s[0]), seq![p], rep));
        assert forall|i: int| 0 <= i < s.drop_first().len() implies #[trigger] g(
            s.drop_first()[i],
        ) == replace_seq(f(s.drop_first()[i]), seq![p], rep) by {
            assert(s.drop_first()[i] == s[i + 1]);
        }
        lemma_replace_char_after_map(s.drop_first(), f, p, rep, g);
    }
}

/// `q` occurs somewhere in `s`.
pub open spec fn occurs_in(s: Seq<char>, q: Seq<char>) -> bool {
    exists|k: int| occurs_at(s, q, k)
}

/// Replacing splits at a character the pattern does not hold: the text on each
/// side of it is rewritten on its own.
pub proof fn lemma_replace_split(
    x: Seq<char>,
    c: char,
    y: Seq<char>,
    pat: Seq<char>,
    rep: Seq<char>,
)
    requires
        pat.len() > 0,
        !pat.contains(c),
    ensures
        replace_seq(x + seq![c] + y, pat, rep) == replace_seq(x, pat, rep) + seq![c]
            + replace_seq(y, pat, rep),
    decreases x.len(),
{
    let m = pat.len() as int;
    let s = x + seq![c] + y;
    if s.len() < m {
        assert(replace_seq(x, pat, rep) == x);
        assert(replace_seq(y, pat, rep) == y);
    } else if x.len() == 0 {
        assert(s == seq![c] + y);
        assert(s.take(m)[0] == c);
        if s.take(m) == pat {
            assert(pat.contains(pat[0]));
        }
        assert(s.drop_first() == y);
        assert(x + seq![c] + replace_seq(y, pat, rep) == seq![c] + replace_seq(y, pat, rep));
    } else if s.take(m) == pat {
        if x.len() < m {
            assert(s[x.len() as int] == c);
            assert(pat[x.len() as int] == c);
            assert(pat.contains(c));
        }
        assert(x.take(m) == s.take(m));
        assert(s.skip(m) == x.skip(m) + seq![c] + y);
        lemma_replace_split(x.skip(m), c, y, pat, rep);
    } else {
        assert(s.drop_first() == x.drop_first() + seq![c] + y);
        assert(s[0] == x[0]);
        lemma_replace_split(x.drop_first(), c, y, pat, rep);
        if x.len() >= m {
            assert(x.take(m) == s.take(m));
        } else {
            assert(replace_seq(x.drop_first(), pat, rep) == x.drop_first());
            assert(replace_seq(x, pat, rep) == x);
            assert(x == seq![x[0]] + x.drop_first());
        }
    }
}

proof fn lemma_replace_keeps_prefix(t: Seq<char>, w: Seq<char>, pat: Seq<char>, rep: Seq<char>)
    requires
        pat.len() > 0,
        rep.len() > 0,
        !w.contains(rep[0]),
        starts_with(replace_seq(t, pat, rep), w),
    ensures
        starts_with(t, w),
    decreases t.len(),
{
    let m = pat.len() as int;
    if w.len() == 0 {
        assert(t.take(0) =~= w);
    } else if t.len() < m {
        assert(replace_seq(t, pat, rep) == t);
    } else {
        let o = replace_seq(t, pat, rep);
        if t.take(m) == pat {
            assert(o[0] == rep[0]);
            assert(w[0] == o.take(w.len() as int)[0]);
            assert(w.contains(w[0]));
        } else {
            let o1 = replace_seq(t.drop_first(), pat, rep);
            assert(o == seq![t[0]] + o1);
            let w1 = w.drop_first();
            assert(w1.len() <= o1.len());
            assert(o1.take(w1.len() as int) == o.take(w.len() as int).drop_first());
            assert forall|i: int| 0 <= i < w1.len() implies w1[i] != rep[0] by {
                assert(w1[i] == w[i + 1]);
                if w1[i] == rep[0] {
                    assert(w.contains(w[i + 1]));
                }
            }
            lemma_replace_keeps_prefix(t.drop_first(), w1, pat, rep);
            assert(w[0] == o[0]);
            assert(t.take(w.len() as int) =~= seq![t[0]] + t.drop_first().take(w1.len() as int));
            assert(w =~= seq![w[0]] + w1);
        }
    }
}

/// Replacing does not make a text `q` appear where none was, when no character of
/// the replacement is `q`'s first and `q` does not hold the replacement's first.
pub proof fn lemma_replace_no_new(s: Seq<char>, q: Seq<char>, pat: Seq<char>, rep: Seq<char>)
    requires
        pat.len() > 0,
        rep.len() > 0,
        q.len() > 0,
        !rep.contains(q[0]),
        !q.contains(rep[0]),
        !occurs_in(s, q),
    ensures
        !occurs_in(replace_seq(s, pat, rep), q),
    decreases s.len(),
{
    let m = pat.len() as int;
    let o = replace_seq(s, pat, rep);
    if s.len() >= m {
        if s.take(m) == pat {
            let rest = s.skip(m);
            assert(!occurs_in(rest, q)) by {
                if occurs_in(rest, q) {
                    let j = choose|j: int| occurs_at(rest, q, j);
                    assert(s.subrange(j + m, j + m + q.len()) == rest.subrange(j, j + q.len()));
                    assert(occurs_at(s, q, j + m));
                }
            }
            lemma_replace_no_new(rest, q, pat, rep);
            let ro = replace_seq(rest, pat, rep);
            assert(o == rep + ro);
            if occurs_in(o, q) {
                let k = choose|k: int| occurs_at(o, q, k);
                if k < rep.len() {
                    assert(o.subrange(k, k + q.len())[0] == q[0]);
                    assert(rep[k] == q[0]);
                    assert(rep.contains(q[0]));
                } else {
                    assert(ro.subrange(k - rep.len(), k - rep.len() + q.len()) == o.subrange(
                        k,
                        k + q.len(),
                    ));
                    assert(occurs_at(ro, q, k - rep.len()));
                }
            }
        } else {
            let rest = s.drop_first();
            assert(!occurs_in(rest, q)) by {
                if occurs_in(rest, q) {
                    let j = choose|j: int| occurs_at(rest, q, j);
                    assert(s.subrange(j + 1, j + 1 + q.len()) == rest.subrange(j, j + q.len()));
                    assert(occurs_at(s, q, j + 1));
                }
            }
            lemma_replace_no_new(rest, q, pat, rep);
            let ro = replace_seq(rest, pat, rep);
            assert(o == seq![s[0]] + ro);
            if occurs_in(o, q) {
                let k = choose|k: int| occurs_at(o, q, k);
                if k == 0 {
                    let w = q.drop_first();
                    assert(ro.take(w.len() as int) == o.subrange(1, q.len() as int));
                    assert(o.subrange(0, q.len() as int) == q);
                    assert(ro.take(w.len() as int) =~= w);
                    assert forall|i: int| 0 <= i < w.len() implies w[i] != rep[0] by {
                        assert(w[i] == q[i + 1]);
                        if w[i] == rep[0] {
                            assert(q.contains(q[i + 1]));
                        }
                    }
                    lemma_replace_keeps_prefix(rest, w, pat, rep);
                    assert(s[0] == q[0]);
                    assert(s.subrange(0, q.len() as int) =~= seq![s[0]] + rest.take(w.len() as int));
                    assert(q =~= seq![q[0]] + w);
                    assert(occurs_at(s, q, 0));
                } else {
                    assert(ro.subrange(k - 1, k - 1 + q.len()) == o.subrange(k, k + q.len()));
                    assert(occurs_at(ro, q, k - 1));
                }
            }
        }
    }
}

/// Unicode `White_Space`, the property behind std's `char::is_whitespace`.
pub open spec fn is_space(c: char) -> bool {
    let u = c as u32;
    ||| 0x09 <= u <= 0x0d
    ||| u == 0x20
    ||| u == 0x85
    ||| u == 0xa0
    ||| u == 0x1680
    ||| 0x2000 <= u <= 0x200a
    ||| u == 0x2028
    ||| u == 0x2029
    ||| u == 0x202f
    ||| u == 0x205f
    ||| u == 0x3000
}

/// Whether `c` is white space, as `char::is_whitespace` decides it.
pub fn space(c: char) -> (b: bool)
    ensures
        b == is_space(c),
{
    let u = c as u32;
    (0x09 <= u && u <= 0x0d) || u == 0x20 || u == 0x85 || u == 0xa0 || u == 0x1680 || (0x2000
        <= u && u <= 0x200a) || u == 0x2028 || u == 0x2029 || u == 0x202f || u == 0x205f || u
        == 0x3000
}

/// Number of leading white-space characters of `s`.
pub open spec fn lead_spaces(s: Seq<char>) -> nat
    decreases s.len(),
{
    if s.len() > 0 && is_space(s[0]) {
        1 + lead_spaces(s.drop_first())
    } else {
        0
    }
}

/// There are no more leading white-space characters than characters.
pub proof fn lemma_lead_spaces_le(s: Seq<char>)
    ensures
        lead_spaces(s) <= s.len(),
    decreases s.len(),
{
    if s.len() > 0 && is_space(s[0]) {
        lemma_lead_spaces_le(s.drop_first());
    }
}

/// Number of trailing white-space characters of `s`.
pub open spec fn trail_spaces(s: Seq<char>) -> nat
    decreases s.len(),
{
    if s.len() > 0 && is_space(s.last()) {
        1 + trail_spaces(s.drop_last())
    } else {
        0
    }
}

/// `s` without leading and trailing white space, as std's `str::trim` gives it.
pub open spec fn trim_seq(s: Seq<char>) -> Seq<char> {
    let a = lead_spaces(s);
    let rest = s.skip(a as int);
    rest.take(rest.len() - trail_spaces(rest))
}

pub(crate) proof fn lemma_lead_spaces(s: Seq<char>, k: int)
    requires
        0 <= k <= s.len(),
        forall|j: int| 0 <= j < k ==> is_space(s[j]),
        k == s.len() || !is_space(s[k]),
    ensures
        lead_spaces(s) == k,
    decreases k,
{
    if k > 0 {
        assert forall|j: int| 0 <= j < k - 1 implies is_space(s.drop_first()[j]) by {
            assert(s.drop_first()[j] == s[j + 1]);
        }
        lemma_lead_spaces(s.drop_first(), k - 1);
    }
}

pub(crate) proof fn lemma_trail_spaces(s: Seq<char>, k: int)
    requires
        0 <= k <= s.len(),
        forall|j: int| s.len() - k <= j < s.len() ==> is_space(s[j]),
        k == s.len() || !is_space(s[s.len() - k - 1]),
    ensures
        trail_spaces(s) == k,
    decreases k,
{
    if k > 0 {
        assert forall|j: int| s.drop_last().len() - (k - 1) <= j < s.drop_last().len() implies is_space(
            s.drop_last()[j],
        ) by {
            assert(s.drop_last()[j] == s[j]);
        }
        lemma_trail_spaces(s.drop_last(), k - 1);
    }
}

/// The characters of `s` without leading and trailing white space.
pub fn trim_chars(s: &Vec<char>) -> (out: Vec<char>)
    ensures
        out@ == trim_seq(s@),
{
    let n = s.len();
    let mut a: usize = 0;
    while a < n && space(s[a])
        invariant
            n == s@.len(),
            a <= n,
            forall|j: int| 0 <= j < a ==> is_space(s@[j]),
        decreases n - a,
    {
        a = a + 1;
    }
    let mut b: usize = n;
    while b > a && space(s[b - 1])
        invariant
            n == s@.len(),
            a <= b <= n,
            forall|j: int| b <= j < n ==> is_space(s@[j]),
        decreases b,
    {
        b = b - 1;
    }
    let mut out: Vec<char> = Vec::new();
    let mut i: usize = a;
    while i < b
        invariant
            n == s@.len(),
            a <= i <= b <= n,
            out@ == s@.subrange(a as int, i as int),
        decreases b - i,
    {
        out.push(s[i]);
        i = i + 1;
    }
    proof {
        lemma_lead_spaces(s@, a as int);
        let rest = s@.skip(a as int);
        lemma_trail_spaces(rest, (n - b) as int);
        assert(out@ =~= rest.take(rest.len() - (n - b)));
    }
    out
}

/// `s` without trailing white space, as std's `str::trim_end` gives it.
pub open spec fn trim_end_seq(s: Seq<char>) -> Seq<char> {
    s.take(s.len() - trail_spaces(s))
}

/// `s` without leading white space, as std's `str::trim_start` gives it.
pub open spec fn trim_start_seq(s: Seq<char>) -> Seq<char> {
    s.skip(lead_spaces(s) as int)
}

/// The characters of `s` without trailing white space.
pub fn trim_end_chars(s: &Vec<char>) -> (out: Vec<char>)
    ensures
        out@ == trim_end_seq(s@),
{
    let n = s.len();
    let mut b: usize = n;
    while b > 0 && space(s[b - 1])
        invariant
            n == s@.len(),
            b <= n,
            forall|j: int| b <= j < n ==> is_space(s@[j]),
        decreases b,
    {
        b = b - 1;
    }
    proof {
        lemma_trail_spaces(s@, (n - b) as int);
    }
    prefix(s, b)
}

/// The first `k` characters of `s`.
pub fn prefix(s: &Vec<char>, k: usize) -> (out: Vec<char>)
    requires
        k <= s@.len(),
    ensures
        out@ == s@.take(k as int),
{
    let mut out: Vec<char> = Vec::new();
    let mut i: usize = 0;
    while i < k
        invariant
            k <= s@.len(),
            i <= k,
            out@ == s@.take(i as int),
        decreases k - i,
    {
        out.push(s[i]);
        i = i + 1;
        assert(s@.take(i as int) == s@.take(i - 1).push(s@[i - 1]));
    }
    out
}

/// The characters of `s` from position `k` on.
pub fn suffix(s: &Vec<char>, k: usize) -> (out: Vec<char>)
    requires
        k <= s@.len(),
    ensures
        out@ == s@.skip(k as int),
{
    let n = s.len();
    let mut out: Vec<char> = Vec::new();
    let mut i: usize = k;
    while i < n
        invariant
            n == s@.len(),
            k <= i <= n,
            out@ == s@.subrange(k as int, i as int),
        decreases n - i,
    {
        out.push(s[i]);
        i = i + 1;
    }
    out
}

/// `s` begins with `p`.
pub open spec fn starts_with(s: Seq<char>, p: Seq<char>) -> bool {
    p.len() <= s.len() && s.take(p.len() as int) == p
}

/// `s` ends with `p`.
pub open spec fn ends_with(s: Seq<char>, p: Seq<char>) -> bool {
    p.len() <= s.len() && s.skip(s.len() - p.len()) == p
}

/// Whether `s` begins with `p`.
pub fn has_prefix(s: &Vec<char>, p: &Vec<char>) -> (b: bool)
    ensures
        b == starts_with(s@, p@),
{
    if p.len() > s.len() {
        return false;
    }
    let r = matches_at(s, p, 0);
    assert(s@.subrange(0, p@.len() as int) == s@.take(p@.len() as int));
    r
}

/// Whether `s` ends with `p`.
pub fn has_suffix(s: &Vec<char>, p: &Vec<char>) -> (b: bool)
    ensures
        b == ends_with(s@, p@),
{
    if p.len() > s.len() {
        return false;
    }
    let k = s.len() - p.len();
    let r = matches_at(s, p, k);
    assert(s@.subrange(k as int, k + p@.len()) == s@.skip(k as int));
    r
}

} // verus!
