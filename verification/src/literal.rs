//! The JSON-literal text in which stored values are kept: how a value is written
//! (`store`) and how a stored text is read back (`load`).
use vstd::prelude::*;

use crate::text::{
    chars_of, is_space, lemma_map_chars_agree, lemma_map_chars_identity,
    lemma_replace_char, lemma_replace_char_after_map, map_chars,
    pair, push_char, push_chars, replace_all, replace_seq, single, string_of, trim_chars, trim_seq,
    lead_spaces, trail_spaces,
};

verus! {

/// A stored value as the interpreter sees it.
pub enum Literal {
    /// `None`.
    Null,
    /// A boolean.
    Bool(bool),
    /// An integer that fits in 64 bits.
    Int(i64),
    /// A string.
    Text(String),
    /// Any other JSON text, kept as written (a float, or a larger integer).
    Other(String),
}

/// The mathematical content of a [`Literal`].
pub ghost enum LiteralView {
    Null,
    Bool(bool),
    Int(int),
    Text(Seq<char>),
    Other(Seq<char>),
}

impl View for Literal {
    type V = LiteralView;

    open spec fn view(&self) -> LiteralView {
        match self {
            Literal::Null => LiteralView::Null,
            Literal::Bool(b) => LiteralView::Bool(*b),
            Literal::Int(i) => LiteralView::Int(*i as int),
            Literal::Text(s) => LiteralView::Text(s@),
            Literal::Other(s) => LiteralView::Other(s@),
        }
    }
}

pub open spec fn null_word() -> Seq<char> {
    seq!['n', 'u', 'l', 'l']
}

pub open spec fn true_word() -> Seq<char> {
    seq!['t', 'r', 'u', 'e']
}

pub open spec fn false_word() -> Seq<char> {
    seq!['f', 'a', 'l', 's', 'e']
}

/// The string-escaping passes applied, in order, when a string is stored:
/// `\` to `\\`, `"` to `\"`, newline to `\n`, carriage return to `\r`, tab to `\t`.
pub open spec fn escape_seq(s: Seq<char>) -> Seq<char> {
    let s1 = replace_seq(s, seq!['\\'], seq!['\\', '\\']);
    let s2 = replace_seq(s1, seq!['"'], seq!['\\', '"']);
    let s3 = replace_seq(s2, seq!['\n'], seq!['\\', 'n']);
    let s4 = replace_seq(s3, seq!['\r'], seq!['\\', 'r']);
    replace_seq(s4, seq!['\t'], seq!['\\', 't'])
}

/// The character that the escape `\c` stands for, for `c` one of `"`, `\`,
/// `n`, `r`, `t`.
pub open spec fn escaped_char(c: char) -> Option<char> {
    if c == '"' {
        Some('"')
    } else if c == '\\' {
        Some('\\')
    } else if c == 'n' {
        Some('\n')
    } else if c == 'r' {
        Some('\r')
    } else if c == 't' {
        Some('\t')
    } else {
        None
    }
}

/// A stored string's text read back, left to right in one pass: a backslash
/// followed by `"`, `\`, `n`, `r` or `t` stands for `"`, `\`, newline, carriage
/// return or tab; every other character is kept as it is.
pub open spec fn unescape_seq(s: Seq<char>) -> Seq<char>
    decreases s.len(),
{
    if s.len() == 0 {
        s
    } else if s[0] == '\\' && s.len() >= 2 && escaped_char(s[1]) is Some {
        seq![escaped_char(s[1])->0] + unescape_seq(s.skip(2))
    } else {
        seq![s[0]] + unescape_seq(s.drop_first())
    }
}

/// A string written as a JSON string literal.
pub open spec fn quoted(s: Seq<char>) -> Seq<char> {
    seq!['"'] + escape_seq(s) + seq!['"']
}

/// The character for the decimal digit `d`.
pub open spec fn digit_char(d: int) -> char {
    (48 + d) as char
}

pub open spec fn is_digit(c: char) -> bool {
    '0' <= c <= '9'
}

/// Decimal digits of `n`, most significant first, without leading zeros.
pub open spec fn decimal(n: nat) -> Seq<char>
    decreases n,
{
    if n < 10 {
        seq![digit_char(n as int)]
    } else {
        decimal(n / 10) + seq![digit_char((n % 10) as int)]
    }
}

/// The decimal text of the integer `i`, as Rust prints integers.
pub open spec fn int_text_of(i: int) -> Seq<char> {
    if i < 0 {
        seq!['-'] + decimal((-i) as nat)
    } else {
        decimal(i as nat)
    }
}

pub open spec fn all_digits(s: Seq<char>) -> bool {
    forall|k: int| 0 <= k < s.len() ==> is_digit(#[trigger] s[k])
}

/// The number that the decimal digits `s` denote.
pub open spec fn digits_value(s: Seq<char>) -> nat
    decreases s.len(),
{
    if s.len() == 0 {
        0
    } else {
        digits_value(s.drop_last()) * 10 + ((s.last() as int) - 48) as nat
    }
}

/// What std's `i64::from_str` accepts: an optional `+` or `-`, then one or more
/// ASCII digits, denoting a value in the range of `i64`.
pub open spec fn parse_int(s: Seq<char>) -> Option<int> {
    let neg = s.len() > 0 && s[0] == '-';
    let signed = s.len() > 0 && (s[0] == '-' || s[0] == '+');
    let ds = if signed { s.drop_first() } else { s };
    if ds.len() == 0 || !all_digits(ds) {
        None
    } else {
        let v: int = if neg { -(digits_value(ds) as int) } else { digits_value(ds) as int };
        if i64::MIN <= v <= i64::MAX {
            Some(v)
        } else {
            None
        }
    }
}

/// How a stored text is read back: after trimming white space, `null`, `true`,
/// `false`, a double-quoted string (unescaped), an `i64`, or else the trimmed text.
pub open spec fn decode_spec(raw: Seq<char>) -> LiteralView {
    let s = trim_seq(raw);
    if s == null_word() {
        LiteralView::Null
    } else if s == true_word() {
        LiteralView::Bool(true)
    } else if s == false_word() {
        LiteralView::Bool(false)
    } else if s.len() >= 2 && s[0] == '"' && s.last() == '"' {
        LiteralView::Text(unescape_seq(s.subrange(1, s.len() - 1)))
    } else {
        match parse_int(s) {
            Some(v) => LiteralView::Int(v),
            None => LiteralView::Other(s),
        }
    }
}

/// How a value is written for storage.
pub open spec fn encode_spec(v: LiteralView) -> Seq<char> {
    match v {
        LiteralView::Null => null_word(),
        LiteralView::Bool(b) => if b {
            true_word()
        } else {
            false_word()
        },
        LiteralView::Int(i) => int_text_of(i),
        LiteralView::Text(s) => quoted(s),
        LiteralView::Other(s) => s,
    }
}

fn chars_equal(a: &Vec<char>, b: &Vec<char>) -> (r: bool)
    ensures
        r == (a@ == b@),
{
    if a.len() != b.len() {
        return false;
    }
    let n = a.len();
    let mut i: usize = 0;
    while i < n
        invariant
            n == a@.len(),
            n == b@.len(),
            i <= n,
            forall|k: int| 0 <= k < i ==> a@[k] == b@[k],
        decreases n - i,
    {
        if a[i] != b[i] {
            return false;
        }
        i = i + 1;
    }
    assert(a@ =~= b@);
    true
}

fn escape_chars(s: &Vec<char>) -> (out: Vec<char>)
    ensures
        out@ == escape_seq(s@),
{
    let s1 = replace_all(s, &single('\\'), &pair('\\', '\\'));
    let s2 = replace_all(&s1, &single('"'), &pair('\\', '"'));
    let s3 = replace_all(&s2, &single('\n'), &pair('\\', 'n'));
    let s4 = replace_all(&s3, &single('\r'), &pair('\\', 'r'));
    replace_all(&s4, &single('\t'), &pair('\\', 't'))
}

fn escaped_exec(c: char) -> (r: Option<char>)
    ensures
        r == escaped_char(c),
{
    if c == '"' {
        Some('"')
    } else if c == '\\' {
        Some('\\')
    } else if c == 'n' {
        Some('\n')
    } else if c == 'r' {
        Some('\r')
    } else if c == 't' {
        Some('\t')
    } else {
        None
    }
}

fn unescape_chars(s: &Vec<char>) -> (out: Vec<char>)
    ensures
        out@ == unescape_seq(s@),
{
    let n = s.len();
    let mut out: Vec<char> = Vec::new();
    let mut i: usize = 0;
    proof {
        assert(s@.skip(0) == s@);
    }
    while i < n
        invariant
            n == s@.len(),
            i <= n,
            unescape_seq(s@) == out@ + unescape_seq(s@.skip(i as int)),
        decreases n - i,
    {
        let ghost rest = s@.skip(i as int);
        let c = s[i];
        let mut done = false;
        if c == '\\' && i + 1 < n {
            match escaped_exec(s[i + 1]) {
                Some(d) => {
                    out.push(d);
                    proof {
                        assert(rest[0] == c && rest[1] == s@[i + 1]);
                        assert(rest.skip(2) == s@.skip(i + 2));
                    }
                    i = i + 2;
                    done = true;
                },
                None => {},
            }
        }
        if !done {
            out.push(c);
            proof {
                assert(rest[0] == c);
                if rest.len() >= 2 {
                    assert(rest[1] == s@[i + 1]);
                }
                assert(rest.drop_first() == s@.skip(i + 1));
            }
            i = i + 1;
        }
    }
    proof {
        assert(s@.skip(n as int).len() == 0);
    }
    out
}

/// A string written as a JSON string literal for storage.
pub fn quote_str(s: &str) -> (out: String)
    ensures
        out@ == quoted(s@),
{
    let e = escape_chars(&chars_of(s));
    let mut out = String::new();
    push_char(&mut out, '"');
    push_chars(&mut out, &e);
    push_char(&mut out, '"');
    out
}

pub(crate) fn push_decimal(out: &mut Vec<char>, n: u64)
    ensures
        final(out)@ == old(out)@ + decimal(n as nat),
    decreases n,
{
    if n >= 10 {
        push_decimal(out, n / 10);
    }
    let d = (n % 10) as u8;
    out.push((d + 48u8) as char);
    proof {
        if n >= 10 {
            assert(decimal(n as nat) == decimal((n / 10) as nat) + seq![digit_char((n % 10) as int)]);
        }
    }
}

/// The decimal text of `i`.
pub fn int_text(i: i64) -> (out: String)
    ensures
        out@ == int_text_of(i as int),
{
    let mut v: Vec<char> = Vec::new();
    if i < 0 {
        v.push('-');
        let m: u64 = (-(i as i128)) as u64;
        push_decimal(&mut v, m);
    } else {
        push_decimal(&mut v, i as u64);
    }
    string_of(&v)
}

/// Parses an `i64` as std's `i64::from_str` does.
pub fn parse_i64(s: &Vec<char>) -> (r: Option<i64>)
    ensures
        match r {
            Some(v) => parse_int(s@) == Some(v as int),
            None => parse_int(s@) is None,
        },
{
    let n = s.len();
    let neg = n > 0 && s[0] == '-';
    let signed = n > 0 && (s[0] == '-' || s[0] == '+');
    let start: usize = if signed { 1 } else { 0 };
    let ghost ds = if signed { s@.drop_first() } else { s@ };
    if start == n {
        return None;
    }
    let limit: u128 = 0x8000_0000_0000_0000u128;
    let mut mag: u128 = 0;
    let mut over = false;
    let mut i: usize = start;
    while i < n
        invariant
            n == s@.len(),
            start <= i <= n,
            ds == s@.skip(start as int),
            signed == (s@.len() > 0 && (s@[0] == '-' || s@[0] == '+')),
            neg == (s@.len() > 0 && s@[0] == '-'),
            ds == (if signed { s@.drop_first() } else { s@ }),
            all_digits(s@.subrange(start as int, i as int)),
            mag <= limit,
            limit == 0x8000_0000_0000_0000u128,
            !over ==> mag == digits_value(s@.subrange(start as int, i as int)),
            over ==> digits_value(s@.subrange(start as int, i as int)) > limit,
        decreases n - i,
    {
        let c = s[i];
        if !('0' <= c && c <= '9') {
            proof {
                assert(ds[i - start] == c);
                assert(!is_digit(ds[i - start]));
                assert(!all_digits(ds));
                assert(signed == (s@.len() > 0 && (s@[0] == '-' || s@[0] == '+')));
                assert(parse_int(s@) is None);
            }
            return None;
        }
        let d = (c as u32 - 48) as u128;
        let ghost pre = s@.subrange(start as int, i as int);
        proof {
            assert(s@.subrange(start as int, i + 1).drop_last() == pre);
            assert(s@.subrange(start as int, i + 1).last() == c);
        }
        if !over {
            let next = mag * 10 + d;
            if next > limit {
                over = true;
            } else {
                mag = next;
            }
        }
        i = i + 1;
    }
    proof {
        assert(s@.subrange(start as int, n as int) == ds);
    }
    if over {
        return None;
    }
    if neg {
        let v: i128 = -(mag as i128);
        Some(v as i64)
    } else {
        if mag > 0x7fff_ffff_ffff_ffffu128 {
            None
        } else {
            Some(mag as i64)
        }
    }
}

/// Reads a stored text back as a value.
pub fn decode_literal(raw: &str) -> (lit: Literal)
    ensures
        lit@ == decode_spec(raw@),
{
    let s = trim_chars(&chars_of(raw));
    let n = s.len();
    if chars_equal(&s, &vec!['n', 'u', 'l', 'l']) {
        Literal::Null
    } else if chars_equal(&s, &vec!['t', 'r', 'u', 'e']) {
        Literal::Bool(true)
    } else if chars_equal(&s, &vec!['f', 'a', 'l', 's', 'e']) {
        Literal::Bool(false)
    } else if n >= 2 && s[0] == '"' && s[n - 1] == '"' {
        let mut inner: Vec<char> = Vec::new();
        let mut i: usize = 1;
        while i < n - 1
            invariant
                n == s@.len(),
                n >= 2,
                1 <= i <= n - 1,
                inner@ == s@.subrange(1, i as int),
            decreases n - 1 - i,
        {
            inner.push(s[i]);
            i = i + 1;
        }
        Literal::Text(string_of(&unescape_chars(&inner)))
    } else {
        match parse_i64(&s) {
            Some(v) => Literal::Int(v),
            None => Literal::Other(string_of(&s)),
        }
    }
}

/// Writes a value for storage.
pub fn encode_literal(v: &Literal) -> (out: String)
    ensures
        out@ == encode_spec(v@),
{
    match v {
        Literal::Null => string_of(&vec!['n', 'u', 'l', 'l']),
        Literal::Bool(b) => if *b {
            string_of(&vec!['t', 'r', 'u', 'e'])
        } else {
            string_of(&vec!['f', 'a', 'l', 's', 'e'])
        },
        Literal::Int(i) => int_text(*i),
        Literal::Text(s) => quote_str(s.as_str()),
        Literal::Other(s) => s.clone(),
    }
}

} // verus!

verus! {

/// The text a character becomes after the first `k` escaping passes.
pub open spec fn esc_upto(k: int, c: char) -> Seq<char> {
    if c == '\\' && k >= 1 {
        seq!['\\', '\\']
    } else if c == '"' && k >= 2 {
        seq!['\\', '"']
    } else if c == '\n' && k >= 3 {
        seq!['\\', 'n']
    } else if c == '\r' && k >= 4 {
        seq!['\\', 'r']
    } else if c == '\t' && k >= 5 {
        seq!['\\', 't']
    } else {
        seq![c]
    }
}

/// The escape of a single character when a string is stored.
pub open spec fn escape_char(c: char) -> Seq<char> {
    esc_upto(5, c)
}

proof fn lemma_replace_small(t: Seq<char>, p: char, rep: Seq<char>)
    requires
        1 <= t.len() <= 2,
    ensures
        t.len() == 1 ==> replace_seq(t, seq![p], rep) == (if t[0] == p {
            rep
        } else {
            seq![t[0]]
        }),
        t.len() == 2 ==> replace_seq(t, seq![p], rep) == (if t[0] == p {
            rep
        } else {
            seq![t[0]]
        }) + (if t[1] == p {
            rep
        } else {
            seq![t[1]]
        }),
{
    lemma_replace_char(t, p, rep);
    reveal_with_fuel(map_chars, 3);
    assert(t.drop_first().len() == t.len() - 1);
    if t.len() == 2 {
        assert(t.drop_first()[0] == t[1]);
        assert(t.drop_first().drop_first().len() == 0);
    }
}

pub proof fn lemma_escape_pass(s: Seq<char>, k: int, p: char, rep: Seq<char>)
    requires
        0 <= k < 5,
        p == (if k == 0 {
            '\\'
        } else if k == 1 {
            '"'
        } else if k == 2 {
            '\n'
        } else if k == 3 {
            '\r'
        } else {
            '\t'
        }),
        rep == (if k == 0 {
            seq!['\\', '\\']
        } else if k == 1 {
            seq!['\\', '"']
        } else if k == 2 {
            seq!['\\', 'n']
        } else if k == 3 {
            seq!['\\', 'r']
        } else {
            seq!['\\', 't']
        }),
    ensures
        replace_seq(map_chars(s, |c: char| esc_upto(k, c)), seq![p], rep) == map_chars(
            s,
            |c: char| esc_upto(k + 1, c),
        ),
{
    let f = |c: char| esc_upto(k, c);
    let g = |c: char| esc_upto(k + 1, c);
    assert forall|i: int| 0 <= i < s.len() implies #[trigger] g(s[i]) == replace_seq(
        f(s[i]),
        seq![p],
        rep,
    ) by {
        let c = s[i];
        lemma_replace_small(esc_upto(k, c), p, rep);
        assert(g(c) =~= replace_seq(f(c), seq![p], rep));
    }
    lemma_replace_char_after_map(s, f, p, rep, g);
}

/// Escaping acts on each character on its own: `\`, `"`, newline, carriage
/// return and tab become two-character escapes, every other character stays.
pub proof fn lemma_escape_per_char(s: Seq<char>)
    ensures
        escape_seq(s) == map_chars(s, |c: char| escape_char(c)),
{
    let f0 = |c: char| esc_upto(0, c);
    lemma_map_chars_identity(s, f0);
    lemma_escape_pass(s, 0, '\\', seq!['\\', '\\']);
    lemma_escape_pass(s, 1, '"', seq!['\\', '"']);
    lemma_escape_pass(s, 2, '\n', seq!['\\', 'n']);
    lemma_escape_pass(s, 3, '\r', seq!['\\', 'r']);
    lemma_escape_pass(s, 4, '\t', seq!['\\', 't']);
    lemma_map_chars_agree(s, |c: char| esc_upto(5, c), |c: char| escape_char(c));
}

proof fn lemma_unescape_mapped(s: Seq<char>)
    ensures
        unescape_seq(map_chars(s, |c: char| escape_char(c))) == s,
    decreases s.len(),
{
    if s.len() > 0 {
        let f = |c: char| escape_char(c);
        let c = s[0];
        let t = f(c);
        let r = map_chars(s.drop_first(), f);
        let x = t + r;
        assert(map_chars(s, f) == x);
        lemma_unescape_mapped(s.drop_first());
        if t.len() == 2 {
            assert(x[0] == '\\' && x[1] == t[1]);
            assert(escaped_char(t[1]) == Some(c));
            assert(x.skip(2) == r);
        } else {
            assert(t == seq![c]);
            assert(x[0] == c && c != '\\');
            assert(x.drop_first() == r);
        }
        assert(s == seq![c] + s.drop_first());
    }
}

/// Reading a stored string back undoes how it was written, for every string.
pub proof fn lemma_unescape_escape(s: Seq<char>)
    ensures
        unescape_seq(escape_seq(s)) == s,
{
    lemma_escape_per_char(s);
    lemma_unescape_mapped(s);
}

} // verus!

verus! {

/// The values that a stored text gives back unchanged: `None`, booleans, 64-bit
/// integers, strings, and other texts that read back as themselves.
pub open spec fn round_trips(v: LiteralView) -> bool {
    match v {
        LiteralView::Null => true,
        LiteralView::Bool(_) => true,
        LiteralView::Int(i) => i64::MIN <= i <= i64::MAX,
        LiteralView::Text(_) => true,
        LiteralView::Other(s) => is_other_text(s),
    }
}

/// A text kept as written that reads back as itself: no white space at either
/// end, not `null`, `true` or `false`, not a double-quoted string, and not an
/// `i64` (for example a float such as `2.5`, or an integer beyond 64 bits).
pub open spec fn is_other_text(s: Seq<char>) -> bool {
    &&& s.len() > 0
    &&& !is_space(s[0])
    &&& !is_space(s.last())
    &&& s[0] != '"'
    &&& s != null_word()
    &&& s != true_word()
    &&& s != false_word()
    &&& parse_int(s) is None
}

proof fn lemma_trim_unchanged(t: Seq<char>)
    requires
        t.len() > 0,
        !is_space(t[0]),
        !is_space(t.last()),
    ensures
        trim_seq(t) == t,
{
    assert(lead_spaces(t) == 0);
    assert(t.skip(0) == t);
    assert(trail_spaces(t) == 0);
    assert(t.take(t.len() as int) == t);
}

proof fn lemma_decimal(n: nat)
    ensures
        decimal(n).len() > 0,
        all_digits(decimal(n)),
        digits_value(decimal(n)) == n,
    decreases n,
{
    assert(digit_char((n % 10) as int) as int == 48 + n % 10);
    if n < 10 {
        assert(decimal(n).drop_last().len() == 0);
        assert(digits_value(decimal(n)) == digits_value(decimal(n).drop_last()) * 10 + ((decimal(n).last() as int) - 48) as nat);
    }
    if n >= 10 {
        lemma_decimal(n / 10);
        let d = decimal(n);
        assert((n / 10) * 10 + n % 10 == n);
        assert(d.drop_last() == decimal(n / 10));
        assert(d.last() == digit_char((n % 10) as int));
        assert forall|k: int| 0 <= k < d.len() implies is_digit(#[trigger] d[k]) by {
            if k < d.len() - 1 {
                assert(d[k] == decimal(n / 10)[k]);
            }
        }
    }
}

proof fn lemma_parse_int_text(i: int)
    requires
        i64::MIN <= i <= i64::MAX,
    ensures
        parse_int(int_text_of(i)) == Some(i),
{
    if i < 0 {
        let m = (-i) as nat;
        lemma_decimal(m);
        let t = int_text_of(i);
        assert(t.drop_first() == decimal(m));
    } else {
        lemma_decimal(i as nat);
        let t = int_text_of(i);
        assert(is_digit(t[0]));
    }
}

/// Storing a value and reading the stored text back gives the value again, for
/// `None`, booleans, 64-bit integers, strings, and number texts such as `2.5` that
/// are kept as written: a number is never read back as a string.
pub proof fn lemma_store_load_round_trip(v: LiteralView)
    requires
        round_trips(v),
    ensures
        decode_spec(encode_spec(v)) == v,
{
    let t = encode_spec(v);
    match v {
        LiteralView::Null => {
            lemma_trim_unchanged(t);
        },
        LiteralView::Bool(b) => {
            lemma_trim_unchanged(t);
            if b {
                assert(t != null_word());
            } else {
                assert(t[0] != null_word()[0]);
                assert(t[0] != true_word()[0]);
            }
        },
        LiteralView::Int(i) => {
            if i < 0 {
                lemma_decimal((-i) as nat);
            } else {
                lemma_decimal(i as nat);
            }
            assert(is_digit(t.last()));
            assert(is_digit(t[0]) || t[0] == '-');
            lemma_trim_unchanged(t);
            assert(t[0] != null_word()[0]);
            assert(t[0] != true_word()[0]);
            assert(t[0] != false_word()[0]);
            lemma_parse_int_text(i);
        },
        LiteralView::Text(s) => {
            lemma_trim_unchanged(t);
            assert(t[0] != null_word()[0]);
            assert(t[0] != true_word()[0]);
            assert(t[0] != false_word()[0]);
            assert(t.subrange(1, t.len() - 1) == escape_seq(s));
            lemma_unescape_escape(s);
        },
        LiteralView::Other(s) => {
            lemma_trim_unchanged(t);
        },
    }
}

} // verus!
