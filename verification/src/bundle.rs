//! Building the single self-contained page: the module as base64, the binding
//! glue turned from an ES module into a plain script, the engine without its
//! trailing start call, and the shell's style and body around them.
use vstd::prelude::*;

use crate::base64::{b64, base64_of};
use crate::markup::{between_of, find, find_from, find_from_exec, lemma_find_from, rfind, rfind_exec};
use crate::text::{
    chars_of, has_prefix, has_suffix, is_space, prefix, push_chars,
    replace_all, replace_seq, starts_with, ends_with, string_of, suffix, trim_chars,
    trim_end_chars, trim_end_seq, trim_seq, trim_start_seq, occurs_at, occurs_in,
    lemma_replace_split, lemma_replace_no_new, lead_spaces,
};

verus! {

/// `s` without its leading newlines.
pub open spec fn drop_newlines(s: Seq<char>) -> Seq<char>
    decreases s.len(),
{
    if s.len() > 0 && s[0] == '\n' {
        drop_newlines(s.drop_first())
    } else {
        s
    }
}

/// The glue with its type-annotation header comment removed: from the first
/// `/* @ts-self-types` to the next `*/`, together with the newlines after it.
/// Left as it is where either marker is missing.
pub open spec fn strip_header_spec(g: Seq<char>) -> Seq<char> {
    match find(g, "/* @ts-self-types"@) {
        None => g,
        Some(s) => match find_from(g, "*/"@, s) {
            None => g,
            Some(q) => g.take(s) + drop_newlines(g.skip(q + 2)),
        },
    }
}

/// Where the line that starts at `k` ends: the first `\n` at or after `k`, or the end.
pub open spec fn line_end(s: Seq<char>, k: int) -> int
    decreases s.len() - k,
{
    if k < 0 || k >= s.len() {
        s.len() as int
    } else if s[k] == '\n' {
        k
    } else {
        line_end(s, k + 1)
    }
}

/// The line starting at `k` ends at a newline or at the end of `s`, not before `k`.
pub proof fn lemma_line_end(s: Seq<char>, k: int)
    requires
        0 <= k <= s.len(),
    ensures
        k <= line_end(s, k) <= s.len(),
        line_end(s, k) < s.len() ==> s[line_end(s, k)] == '\n',
    decreases s.len() - k,
{
    if k < s.len() && s[k] != '\n' {
        lemma_line_end(s, k + 1);
    }
}

#[via_fn]
proof fn lines_from_decreases(s: Seq<char>, k: int) {
    if 0 <= k < s.len() {
        lemma_line_end(s, k);
    }
}

/// A line without the `\r` of a `\r\n` ending.
pub open spec fn strip_cr(l: Seq<char>) -> Seq<char> {
    if l.len() > 0 && l.last() == '\r' {
        l.drop_last()
    } else {
        l
    }
}

/// The lines of `s` from position `k` on, as std's `str::lines` gives them:
/// split at `\n`, a `\r` before the `\n` dropped, no empty line after a final `\n`.
pub open spec fn lines_from(s: Seq<char>, k: int) -> Seq<Seq<char>>
    decreases s.len() + 1 - k,
    via lines_from_decreases
{
    if k < 0 || k >= s.len() {
        Seq::empty()
    } else {
        let e = line_end(s, k);
        let raw = s.subrange(k, e);
        let line = if e < s.len() {
            strip_cr(raw)
        } else {
            raw
        };
        seq![line] + lines_from(s, e + 1)
    }
}

/// The lines of `s`.
pub open spec fn lines_of(s: Seq<char>) -> Seq<Seq<char>> {
    lines_from(s, 0)
}

/// A line kept in the script: one that is not an `export { … }` statement.
pub open spec fn keep_line(l: Seq<char>) -> bool {
    !starts_with(trim_start_seq(l), "export {"@)
}

/// The lines of `ls` that are kept, in order.
pub open spec fn kept_lines(ls: Seq<Seq<char>>) -> Seq<Seq<char>>
    decreases ls.len(),
{
    if ls.len() == 0 {
        ls
    } else {
        (if keep_line(ls[0]) {
            seq![ls[0]]
        } else {
            Seq::empty()
        }) + kept_lines(ls.drop_first())
    }
}

/// Each line of `ls` with a `\n` before it.
pub open spec fn prefixed_lines(ls: Seq<Seq<char>>) -> Seq<char>
    decreases ls.len(),
{
    if ls.len() == 0 {
        Seq::empty()
    } else {
        seq!['\n'] + ls[0] + prefixed_lines(ls.drop_first())
    }
}

/// The lines `ls` joined with `\n`.
pub open spec fn join_lines(ls: Seq<Seq<char>>) -> Seq<char> {
    if ls.len() == 0 {
        Seq::empty()
    } else {
        ls[0] + prefixed_lines(ls.drop_first())
    }
}

/// The text `g` without its `export { … }` lines, the rest joined with `\n`.
pub open spec fn without_exports_spec(g: Seq<char>) -> Seq<char> {
    join_lines(kept_lines(lines_of(g)))
}

/// The binding glue as a plain script: header comment removed, `export function`
/// made `function`, export lines dropped, the module-URL default replaced by an
/// error, and the init function renamed to `init`.
pub open spec fn glue_script_spec(g: Seq<char>) -> Seq<char> {
    let g1 = strip_header_spec(g);
    let g2 = replace_seq(g1, "export function "@, "function "@);
    let g3 = without_exports_spec(g2);
    let g4 = replace_seq(
        g3,
        "module_or_path = new URL('bruecke_bg.wasm', import.meta.url);"@,
        "throw new Error('standalone: pass WASM bytes to init()');"@,
    );
    replace_seq(g4, "async function __wbg_init("@, "async function init("@)
}

/// The engine without its trailing start call: cut before the last `\nmain()`
/// of the right-trimmed text, or else before a final `main();`, and right-trimmed;
/// left as it is where neither occurs.
pub open spec fn engine_script_spec(e: Seq<char>) -> Seq<char> {
    let t = trim_end_seq(e);
    match rfind(t, "\nmain()"@) {
        Some(p) => trim_end_seq(t.take(p)),
        None => if ends_with(t, "main();"@) {
            trim_end_seq(t.take(t.len() - "main();"@.len()))
        } else {
            e
        },
    }
}

/// The style sheet of the shell page: the text between `<style>` and `</style>`.
pub open spec fn shell_css_spec(shell: Seq<char>) -> Seq<char> {
    match between_of(shell, "<style>"@, "</style>"@) {
        Some(c) => c,
        None => Seq::empty(),
    }
}

/// The body markup of the shell page: the text between `<body>` and `<script`, trimmed.
pub open spec fn shell_body_spec(shell: Seq<char>) -> Seq<char> {
    trim_seq(
        match between_of(shell, "<body>"@, "<script"@) {
            Some(b) => b,
            None => Seq::empty(),
        },
    )
}

pub open spec fn page_head() -> Seq<char> {
    "<!DOCTYPE html><html lang=\"en\"><head>\n<meta charset=\"UTF-8\"><meta name=\"viewport\" content=\"width=device-width,initial-scale=1.0\">\n<title>bruecke</title><style>"@
}

pub open spec fn page_after_css() -> Seq<char> {
    "</style></head><body>\n"@
}

pub open spec fn page_after_body() -> Seq<char> {
    "\n<script>\nconst __WASM_B64='"@
}

pub open spec fn page_after_module() -> Seq<char> {
    "';\nfunction js_now(){return performance.now();}\n"@
}

pub open spec fn page_tail() -> Seq<char> {
    "\n(async()=>{const b=Uint8Array.from(atob(__WASM_B64),c=>c.charCodeAt(0));try{await init({module_or_path:b});await main()}catch(e){fatal(e)}})();\n</script></body></html>\n"@
}

/// The complete page: head and style, body, the module as base64, the clock
/// shim, the glue and the engine, and the start-up script.
pub open spec fn page_spec(
    css: Seq<char>,
    body: Seq<char>,
    module_b64: Seq<char>,
    glue: Seq<char>,
    engine: Seq<char>,
) -> Seq<char> {
    page_head() + css + page_after_css() + body + page_after_body() + module_b64
        + page_after_module() + glue + engine + page_tail()
}

fn drop_newlines_chars(s: &Vec<char>) -> (out: Vec<char>)
    ensures
        out@ == drop_newlines(s@),
{
    let n = s.len();
    let mut a: usize = 0;
    proof {
        assert(s@.skip(0) == s@);
    }
    while a < n && s[a] == '\n'
        invariant
            n == s@.len(),
            a <= n,
            drop_newlines(s@) == drop_newlines(s@.skip(a as int)),
        decreases n - a,
    {
        proof {
            assert(s@.skip(a as int).drop_first() == s@.skip(a + 1));
        }
        a = a + 1;
    }
    suffix(s, a)
}

/// Removes the type-annotation header comment from the glue.
pub fn strip_header(g: &Vec<char>) -> (out: Vec<char>)
    ensures
        out@ == strip_header_spec(g@),
{
    let open = chars_of("/* @ts-self-types");
    let close = chars_of("*/");
    match find_from_exec(g, &open, 0) {
        None => g.clone(),
        Some(s) => {
            proof {
                lemma_find_from(g@, open@, 0);
            }
            match find_from_exec(g, &close, s) {
                None => g.clone(),
                Some(q) => {
                    proof {
                        lemma_find_from(g@, close@, s as int);
                        reveal_strlit("*/");
                    }
                    let glen = g.len();
                    assert(q + 2 <= glen);
                    let mut out = prefix(g, s);
                    let rest = drop_newlines_chars(&suffix(g, q + 2));
                    let mut i: usize = 0;
                    let ghost before = out@;
                    while i < rest.len()
                        invariant
                            i <= rest@.len(),
                            out@ == before + rest@.take(i as int),
                        decreases rest@.len() - i,
                    {
                        out.push(rest[i]);
                        i = i + 1;
                        assert(rest@.take(i as int) == rest@.take(i - 1).push(rest@[i - 1]));
                    }
                    assert(rest@.take(rest@.len() as int) == rest@);
                    out
                },
            }
        },
    }
}

fn keep_line_exec(l: &Vec<char>) -> (b: bool)
    ensures
        b == keep_line(l@),
{
    let n = l.len();
    let mut a: usize = 0;
    while a < n && crate::text::space(l[a])
        invariant
            n == l@.len(),
            a <= n,
            forall|j: int| 0 <= j < a ==> is_space(l@[j]),
        decreases n - a,
    {
        a = a + 1;
    }
    proof {
        crate::text::lemma_lead_spaces(l@, a as int);
    }
    !has_prefix(&suffix(l, a), &chars_of("export {"))
}

fn append(out: &mut Vec<char>, v: &Vec<char>)
    ensures
        final(out)@ == old(out)@ + v@,
{
    let mut i: usize = 0;
    while i < v.len()
        invariant
            i <= v@.len(),
            out@ == old(out)@ + v@.take(i as int),
        decreases v@.len() - i,
    {
        out.push(v[i]);
        i = i + 1;
        assert(v@.take(i as int) == v@.take(i - 1).push(v@[i - 1]));
    }
    assert(v@.take(v@.len() as int) == v@);
}

/// Drops the `export { … }` lines and joins the rest with `\n`.
pub fn without_exports(g: &Vec<char>) -> (out: Vec<char>)
    ensures
        out@ == without_exports_spec(g@),
{
    let n = g.len();
    let mut out: Vec<char> = Vec::new();
    let mut started = false;
    let mut pos: usize = 0;
    while pos < n
        invariant
            n == g@.len(),
            pos <= n,
            without_exports_spec(g@) == out@ + (if started {
                prefixed_lines(kept_lines(lines_from(g@, pos as int)))
            } else {
                join_lines(kept_lines(lines_from(g@, pos as int)))
            }),
        decreases n - pos,
    {
        let mut e: usize = pos;
        while e < n && g[e] != '\n'
            invariant
                n == g@.len(),
                pos <= e <= n,
                line_end(g@, pos as int) == line_end(g@, e as int),
            decreases n - e,
        {
            e = e + 1;
        }
        proof {
            lemma_line_end(g@, pos as int);
        }
        let raw = suffix(&prefix(g, e), pos);
        let line = if e < n && raw.len() > 0 && raw[raw.len() - 1] == '\r' {
            prefix(&raw, raw.len() - 1)
        } else {
            raw
        };
        let ghost rest = lines_from(g@, pos as int);
        let ghost after = lines_from(g@, e + 1);
        proof {
            assert(raw@ == g@.subrange(pos as int, e as int));
            assert(rest == seq![line@] + after);
            assert(rest.drop_first() == after);
            assert(rest[0] == line@);
        }
        let ghost old_out = out@;
        let ghost was_started = started;
        let keep = keep_line_exec(&line);
        if keep {
            if started {
                out.push('\n');
            }
            append(&mut out, &line);
            started = true;
        }
        proof {
            let k_after = kept_lines(after);
            if keep {
                assert(kept_lines(rest) == seq![line@] + k_after);
                assert((seq![line@] + k_after).drop_first() == k_after);
                if was_started {
                    assert(prefixed_lines(seq![line@] + k_after) == seq!['\n'] + line@
                        + prefixed_lines(k_after));
                } else {
                    assert(join_lines(seq![line@] + k_after) == line@ + prefixed_lines(k_after));
                }
            } else {
                assert(kept_lines(rest) == Seq::<Seq<char>>::empty() + k_after);
                assert(kept_lines(rest) == k_after);
            }
        }
        if e == n {
            proof {
                assert(after.len() == 0);
                assert(kept_lines(after).len() == 0);
            }
            pos = n;
        } else {
            pos = e + 1;
        }
    }
    proof {
        assert(lines_from(g@, pos as int).len() == 0);
    }
    out
}

/// The binding glue turned into a plain script.
pub fn glue_script(glue: &str) -> (out: String)
    ensures
        out@ == glue_script_spec(glue@),
{
    proof {
        reveal_strlit("export function ");
        reveal_strlit("module_or_path = new URL('bruecke_bg.wasm', import.meta.url);");
        reveal_strlit("async function __wbg_init(");
    }
    let g1 = strip_header(&chars_of(glue));
    let g2 = replace_all(&g1, &chars_of("export function "), &chars_of("function "));
    let g3 = without_exports(&g2);
    let g4 = replace_all(
        &g3,
        &chars_of("module_or_path = new URL('bruecke_bg.wasm', import.meta.url);"),
        &chars_of("throw new Error('standalone: pass WASM bytes to init()');"),
    );
    let g5 = replace_all(&g4, &chars_of("async function __wbg_init("), &chars_of("async function init("));
    string_of(&g5)
}

/// The engine script without its trailing start call.
pub fn engine_script(engine: &str) -> (out: String)
    ensures
        out@ == engine_script_spec(engine@),
{
    let e = chars_of(engine);
    let t = trim_end_chars(&e);
    let pat = chars_of("\nmain()");
    proof {
        crate::markup::lemma_rfind_upto(t@, pat@, t@.len() - pat@.len());
    }
    match rfind_exec(&t, &pat) {
        Some(p) => string_of(&trim_end_chars(&prefix(&t, p))),
        None => {
            let tail = chars_of("main();");
            if has_suffix(&t, &tail) {
                string_of(&trim_end_chars(&prefix(&t, t.len() - tail.len())))
            } else {
                string_of(&e)
            }
        },
    }
}

/// The style sheet of the shell page, empty where it has none.
pub fn shell_css(shell: &str) -> (out: String)
    ensures
        out@ == shell_css_spec(shell@),
{
    match crate::markup::between(shell, "<style>", "</style>") {
        Some(c) => string_of(&chars_of(c)),
        None => String::new(),
    }
}

/// The trimmed body markup of the shell page, empty where it has none.
pub fn shell_body(shell: &str) -> (out: String)
    ensures
        out@ == shell_body_spec(shell@),
{
    match crate::markup::between(shell, "<body>", "<script") {
        Some(b) => string_of(&trim_chars(&chars_of(b))),
        None => {
            proof {
                assert(trim_seq(Seq::<char>::empty()) =~= Seq::<char>::empty());
            }
            String::new()
        },
    }
}

/// The complete page from its parts.
pub fn page_html(css: &str, body: &str, module_b64: &str, glue: &str, engine: &str) -> (out:
    String)
    ensures
        out@ == page_spec(css@, body@, module_b64@, glue@, engine@),
{
    let mut out = String::new();
    push_chars(
        &mut out,
        &chars_of(
            "<!DOCTYPE html><html lang=\"en\"><head>\n<meta charset=\"UTF-8\"><meta name=\"viewport\" content=\"width=device-width,initial-scale=1.0\">\n<title>bruecke</title><style>",
        ),
    );
    push_chars(&mut out, &chars_of(css));
    push_chars(&mut out, &chars_of("</style></head><body>\n"));
    push_chars(&mut out, &chars_of(body));
    push_chars(&mut out, &chars_of("\n<script>\nconst __WASM_B64='"));
    push_chars(&mut out, &chars_of(module_b64));
    push_chars(&mut out, &chars_of("';\nfunction js_now(){return performance.now();}\n"));
    push_chars(&mut out, &chars_of(glue));
    push_chars(&mut out, &chars_of(engine));
    push_chars(
        &mut out,
        &chars_of(
            "\n(async()=>{const b=Uint8Array.from(atob(__WASM_B64),c=>c.charCodeAt(0));try{await init({module_or_path:b});await main()}catch(e){fatal(e)}})();\n</script></body></html>\n",
        ),
    );
    out
}

/// The page built from the shell, the compiled module, its glue and the engine.
pub fn bundle_page(shell: &str, module: &[u8], glue: &str, engine: &str) -> (out: String)
    ensures
        out@ == page_spec(
            shell_css_spec(shell@),
            shell_body_spec(shell@),
            base64_of(module@),
            glue_script_spec(glue@),
            engine_script_spec(engine@),
        ),
{
    let css = shell_css(shell);
    let body = shell_body(shell);
    let module_b64 = b64(module);
    let g = glue_script(glue);
    let e = engine_script(engine);
    page_html(css.as_str(), body.as_str(), module_b64.as_str(), g.as_str(), e.as_str())
}

proof fn lemma_occurs_left(x: Seq<char>, y: Seq<char>, q: Seq<char>, k: int)
    requires
        occurs_at(x, q, k),
    ensures
        occurs_at(x + y, q, k),
{
    assert((x + y).subrange(k, k + q.len()) == x.subrange(k, k + q.len()));
}

proof fn lemma_occurs_right(x: Seq<char>, y: Seq<char>, q: Seq<char>, k: int)
    requires
        occurs_at(y, q, k),
    ensures
        occurs_at(x + y, q, x.len() + k),
{
    assert((x + y).subrange(x.len() + k, x.len() + k + q.len()) == y.subrange(k, k + q.len()));
}

proof fn lemma_no_header_strip(g: Seq<char>)
    requires
        !occurs_in(g, "/* @ts-self-types"@),
    ensures
        strip_header_spec(g) == g,
{
    lemma_find_from(g, "/* @ts-self-types"@, 0);
}

proof fn lemma_line_end_shift(a: Seq<char>, b: Seq<char>, j: int)
    requires
        0 <= j <= b.len(),
    ensures
        line_end(a + b, a.len() + j) == a.len() + line_end(b, j),
    decreases b.len() - j,
{
    if j < b.len() {
        assert((a + b)[a.len() + j] == b[j]);
        if b[j] != '\n' {
            lemma_line_end_shift(a, b, j + 1);
        }
    }
}

proof fn lemma_lines_shift(a: Seq<char>, b: Seq<char>, j: int)
    requires
        0 <= j,
    ensures
        lines_from(a + b, a.len() + j) == lines_from(b, j),
    decreases b.len() + 1 - j,
{
    if j < b.len() {
        lemma_line_end_shift(a, b, j);
        lemma_line_end(b, j);
        let e = line_end(b, j);
        assert((a + b).subrange(a.len() + j, a.len() + e) == b.subrange(j, e));
        lemma_lines_shift(a, b, e + 1);
    }
}

proof fn lemma_line_end_left(a: Seq<char>, b: Seq<char>, k: int)
    requires
        a.len() > 0,
        a.last() == '\n',
        0 <= k < a.len(),
    ensures
        line_end(a + b, k) == line_end(a, k),
        line_end(a, k) < a.len(),
    decreases a.len() - k,
{
    assert((a + b)[k] == a[k]);
    if a[k] != '\n' {
        lemma_line_end_left(a, b, k + 1);
    }
}

proof fn lemma_lines_concat(a: Seq<char>, b: Seq<char>, k: int)
    requires
        a.len() > 0,
        a.last() == '\n',
        0 <= k <= a.len(),
    ensures
        lines_from(a + b, k) == lines_from(a, k) + lines_from(b, 0),
    decreases a.len() - k,
{
    if k == a.len() {
        lemma_lines_shift(a, b, 0);
        assert(lines_from(a, k) + lines_from(b, 0) == lines_from(b, 0));
    } else {
        lemma_line_end_left(a, b, k);
        lemma_line_end(a, k);
        let e = line_end(a, k);
        assert((a + b).subrange(k, e) == a.subrange(k, e));
        lemma_lines_concat(a, b, e + 1);
        let line = strip_cr(a.subrange(k, e));
        assert(lines_from(a + b, k) == seq![line] + lines_from(a + b, e + 1));
        assert(lines_from(a, k) == seq![line] + lines_from(a, e + 1));
    }
}

proof fn lemma_kept_concat(x: Seq<Seq<char>>, y: Seq<Seq<char>>)
    ensures
        kept_lines(x + y) == kept_lines(x) + kept_lines(y),
    decreases x.len(),
{
    if x.len() == 0 {
        assert(x + y == y);
    } else {
        lemma_kept_concat(x.drop_first(), y);
        assert((x + y).drop_first() == x.drop_first() + y);
        assert((x + y)[0] == x[0]);
    }
}

proof fn lemma_prefixed_concat(x: Seq<Seq<char>>, y: Seq<Seq<char>>)
    ensures
        prefixed_lines(x + y) == prefixed_lines(x) + prefixed_lines(y),
    decreases x.len(),
{
    if x.len() == 0 {
        assert(x + y == y);
    } else {
        lemma_prefixed_concat(x.drop_first(), y);
        assert((x + y).drop_first() == x.drop_first() + y);
        assert((x + y)[0] == x[0]);
    }
}

proof fn lemma_join_concat(x: Seq<Seq<char>>, y: Seq<Seq<char>>)
    requires
        x.len() > 0,
        y.len() > 0,
    ensures
        join_lines(x + y) == join_lines(x) + seq!['\n'] + join_lines(y),
{
    lemma_prefixed_concat(x.drop_first(), y);
    assert((x + y).drop_first() == x.drop_first() + y);
    assert((x + y)[0] == x[0]);
    assert(prefixed_lines(y) == seq!['\n'] + y[0] + prefixed_lines(y.drop_first()));
}

proof fn lemma_all_lines_kept(s: Seq<char>, k: int)
    requires
        0 <= k,
        !occurs_in(s, "export {"@),
    ensures
        kept_lines(lines_from(s, k)) == lines_from(s, k),
    decreases s.len() + 1 - k,
{
    if k < s.len() {
        lemma_line_end(s, k);
        let e = line_end(s, k);
        let raw = s.subrange(k, e);
        let line = if e < s.len() { strip_cr(raw) } else { raw };
        lemma_all_lines_kept(s, e + 1);
        let ls = lines_from(s, k);
        assert(ls == seq![line] + lines_from(s, e + 1));
        assert(ls[0] == line);
        assert(ls.drop_first() == lines_from(s, e + 1));
        if !keep_line(line) {
            let q = "export {"@;
            let t = trim_start_seq(line);
            let d = lead_spaces(line) as int;
            crate::text::lemma_lead_spaces_le(line);
            assert(t.take(q.len() as int) == q);
            assert(s.subrange(k + d, k + d + q.len()) =~= t.take(q.len() as int));
            assert(occurs_at(s, q, k + d));
        }
    }
}

proof fn lemma_lines_nonempty(s: Seq<char>)
    requires
        s.len() > 0,
    ensures
        lines_of(s).len() > 0,
{
    lemma_line_end(s, 0);
}

proof fn lemma_replace_nonempty(s: Seq<char>, pat: Seq<char>, rep: Seq<char>)
    requires
        s.len() > 0,
        pat.len() > 0,
        rep.len() > 0,
    ensures
        replace_seq(s, pat, rep).len() > 0,
{
}

/// The plain-script glue is made line by line: a glue that splits after a
/// newline into two parts, with no header comment and no `export {` text, gives
/// the scripts of its two parts joined by a newline. So every `export function `
/// becomes `function `, however many declarations the glue holds.
pub proof fn lemma_glue_script_by_parts(a: Seq<char>, b: Seq<char>)
    requires
        a.len() > 0,
        a.last() == '\n',
        b.len() > 0,
        !occurs_in(a + b, "/* @ts-self-types"@),
        !occurs_in(a, "export {"@),
        !occurs_in(b, "export {"@),
    ensures
        glue_script_spec(a + b) == glue_script_spec(a) + seq!['\n'] + glue_script_spec(b),
{
    reveal_strlit("export function ");
    reveal_strlit("function ");
    reveal_strlit("export {");
    reveal_strlit("module_or_path = new URL('bruecke_bg.wasm', import.meta.url);");
    reveal_strlit("async function __wbg_init(");
    let hd = "/* @ts-self-types"@;
    let ef = "export function "@;
    let f = "function "@;
    let q = "export {"@;
    let mp = "module_or_path = new URL('bruecke_bg.wasm', import.meta.url);"@;
    let th = "throw new Error('standalone: pass WASM bytes to init()');"@;
    let wi = "async function __wbg_init("@;
    let ni = "async function init("@;
    let g = a + b;
    assert(!occurs_in(a, hd)) by {
        if occurs_in(a, hd) {
            let k = choose|k: int| occurs_at(a, hd, k);
            lemma_occurs_left(a, b, hd, k);
        }
    }
    assert(!occurs_in(b, hd)) by {
        if occurs_in(b, hd) {
            let k = choose|k: int| occurs_at(b, hd, k);
            lemma_occurs_right(a, b, hd, k);
        }
    }
    lemma_no_header_strip(g);
    lemma_no_header_strip(a);
    lemma_no_header_strip(b);
    assert(!ef.contains('\n')) by {
        assert forall|i: int| 0 <= i < ef.len() implies ef[i] != '\n' by {}
    }
    let a0 = a.drop_last();
    assert(a == a0 + seq!['\n'] + Seq::<char>::empty());
    assert(g == a0 + seq!['\n'] + b);
    lemma_replace_split(a0, '\n', b, ef, f);
    lemma_replace_split(a0, '\n', Seq::<char>::empty(), ef, f);
    let ra = replace_seq(a, ef, f);
    let rb = replace_seq(b, ef, f);
    assert(replace_seq(Seq::<char>::empty(), ef, f) == Seq::<char>::empty());
    assert(ra == replace_seq(a0, ef, f) + seq!['\n']);
    assert(replace_seq(g, ef, f) == ra + rb);
    assert(!f.contains(q[0])) by {
        assert forall|i: int| 0 <= i < f.len() implies f[i] != q[0] by {}
    }
    assert(!q.contains(f[0])) by {
        assert forall|i: int| 0 <= i < q.len() implies q[i] != f[0] by {}
    }
    lemma_replace_no_new(a, q, ef, f);
    lemma_replace_no_new(b, q, ef, f);
    lemma_replace_nonempty(b, ef, f);
    assert(ra.len() > 0 && ra.last() == '\n');
    lemma_lines_concat(ra, rb, 0);
    let la = lines_of(ra);
    let lb = lines_of(rb);
    lemma_kept_concat(la, lb);
    lemma_all_lines_kept(ra, 0);
    lemma_all_lines_kept(rb, 0);
    lemma_lines_nonempty(ra);
    lemma_lines_nonempty(rb);
    lemma_join_concat(la, lb);
    let ja = join_lines(la);
    let jb = join_lines(lb);
    assert(without_exports_spec(ra + rb) == ja + seq!['\n'] + jb);
    assert(without_exports_spec(ra) == ja);
    assert(without_exports_spec(rb) == jb);
    assert(!mp.contains('\n')) by {
        assert forall|i: int| 0 <= i < mp.len() implies mp[i] != '\n' by {}
    }
    assert(!wi.contains('\n')) by {
        assert forall|i: int| 0 <= i < wi.len() implies wi[i] != '\n' by {}
    }
    lemma_replace_split(ja, '\n', jb, mp, th);
    let ma = replace_seq(ja, mp, th);
    let mb = replace_seq(jb, mp, th);
    lemma_replace_split(ma, '\n', mb, wi, ni);
}

} // verus!
