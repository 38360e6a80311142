//! What the host is told after each compile and each frame: the run status, its
//! JSON report, and the context-menu and cursor signals exchanged with the script.
use vstd::prelude::*;

use crate::literal::{decimal, esc_upto, lemma_escape_pass, push_decimal};
use crate::text::{
    chars_of, lemma_map_chars_identity, map_chars, pair, push_chars, replace_all, replace_seq,
    single, string_of, str_eq,
};

verus! {

/// Frames per second the host should aim for.
pub fn fps_target() -> (r: u32)
    ensures
        r == 60,
{
    60
}

/// The escaping applied to an error message in the report, in order:
/// `\` to `\\`, `"` to `\"`, newline to `\n`, carriage return to `\r`.
pub open spec fn error_escape_seq(e: Seq<char>) -> Seq<char> {
    let s1 = replace_seq(e, seq!['\\'], seq!['\\', '\\']);
    let s2 = replace_seq(s1, seq!['"'], seq!['\\', '"']);
    let s3 = replace_seq(s2, seq!['\n'], seq!['\\', 'n']);
    replace_seq(s3, seq!['\r'], seq!['\\', 'r'])
}

/// The report of a failed run: `{"ok":false,"error":"<escaped message>"}`.
pub open spec fn error_report_text(e: Seq<char>) -> Seq<char> {
    "{\"ok\":false,\"error\":\""@ + error_escape_seq(e) + "\"}"@
}

/// The report of a good run: counts as decimal numbers, the compile time as given.
pub open spec fn ok_report_text(
    shapes: nat,
    vertices: nat,
    compile_ms: Seq<char>,
    lines: nat,
    bytes: nat,
) -> Seq<char> {
    "{\"ok\":true,\"shapes\":"@ + decimal(shapes) + ",\"vertices\":"@ + decimal(vertices)
        + ",\"compile_ms\":"@ + compile_ms + ",\"source_lines\":"@ + decimal(lines)
        + ",\"source_bytes\":"@ + decimal(bytes) + "}"@
}

/// Escaping an error message acts on each character on its own.
pub proof fn lemma_error_escape_per_char(e: Seq<char>)
    ensures
        error_escape_seq(e) == map_chars(e, |c: char| esc_upto(4, c)),
{
    lemma_map_chars_identity(e, |c: char| esc_upto(0, c));
    lemma_escape_pass(e, 0, '\\', seq!['\\', '\\']);
    lemma_escape_pass(e, 1, '"', seq!['\\', '"']);
    lemma_escape_pass(e, 2, '\n', seq!['\\', 'n']);
    lemma_escape_pass(e, 3, '\r', seq!['\\', 'r']);
}

/// The report of a failed run.
pub fn error_report(e: &str) -> (r: String)
    ensures
        r@ == error_report_text(e@),
{
    let s0 = chars_of(e);
    let s1 = replace_all(&s0, &single('\\'), &pair('\\', '\\'));
    let s2 = replace_all(&s1, &single('"'), &pair('\\', '"'));
    let s3 = replace_all(&s2, &single('\n'), &pair('\\', 'n'));
    let s4 = replace_all(&s3, &single('\r'), &pair('\\', 'r'));
    let mut out = String::new();
    push_chars(&mut out, &chars_of("{\"ok\":false,\"error\":\""));
    push_chars(&mut out, &s4);
    push_chars(&mut out, &chars_of("\"}"));
    out
}

/// The report of a good run.
pub fn ok_report(
    shapes: usize,
    vertices: usize,
    compile_ms: &str,
    lines: usize,
    bytes: usize,
) -> (r: String)
    ensures
        r@ == ok_report_text(
            shapes as nat,
            vertices as nat,
            compile_ms@,
            lines as nat,
            bytes as nat,
        ),
{
    let mut v: Vec<char> = chars_of("{\"ok\":true,\"shapes\":");
    push_decimal(&mut v, shapes as u64);
    let mut out = string_of(&v);
    let mut v: Vec<char> = chars_of(",\"vertices\":");
    push_decimal(&mut v, vertices as u64);
    push_chars(&mut out, &v);
    push_chars(&mut out, &chars_of(",\"compile_ms\":"));
    push_chars(&mut out, &chars_of(compile_ms));
    let mut v: Vec<char> = chars_of(",\"source_lines\":");
    push_decimal(&mut v, lines as u64);
    push_chars(&mut out, &v);
    let mut v: Vec<char> = chars_of(",\"source_bytes\":");
    push_decimal(&mut v, bytes as u64);
    push_chars(&mut out, &v);
    push_chars(&mut out, &chars_of("}"));
    out
}

/// What a frame hands the renderer.
#[derive(Clone, Copy, Debug, PartialEq, Eq, Structural)]
pub enum FrameOutcome {
    /// Build the vertices of this frame's shapes and keep them as the last good ones.
    Fresh,
    /// Hand back the last good vertices.
    Stale,
}

/// The error the frame call gives while no program has been compiled yet.
pub open spec fn no_script_text() -> Seq<char> {
    "__no_script__"@
}

/// Error and source statistics of the running program.
pub struct RunStatus {
    /// The last compile or frame error, `None` while the program runs cleanly.
    pub error_msg: Option<String>,
    /// Non-blank lines of the last program that compiled.
    pub source_lines: usize,
    /// Bytes of the last program that compiled.
    pub source_bytes: usize,
}

impl RunStatus {
    /// No program yet, no error.
    pub fn new() -> (r: RunStatus)
        ensures
            r.error_msg is None,
            r.source_lines == 0,
            r.source_bytes == 0,
    {
        RunStatus { error_msg: None, source_lines: 0, source_bytes: 0 }
    }

    /// Records the outcome of compiling a program of `lines` non-blank lines and
    /// `bytes` bytes; tells whether it compiled.
    pub fn record_compile(&mut self, result: Result<(), String>, lines: usize, bytes: usize) -> (ok:
        bool)
        ensures
            ok == (result is Ok),
            match result {
                Ok(_) => final(self).error_msg is None && final(self).source_lines == lines
                    && final(self).source_bytes == bytes,
                Err(e) => final(self).error_msg == Some(e) && final(self).source_lines
                    == old(self).source_lines && final(self).source_bytes == old(
                    self,
                ).source_bytes,
            },
    {
        match result {
            Err(e) => {
                self.error_msg = Some(e);
                false
            },
            Ok(()) => {
                self.source_lines = lines;
                self.source_bytes = bytes;
                self.error_msg = None;
                true
            },
        }
    }

    /// Records the outcome of one frame call: success clears the error and asks
    /// for fresh vertices; "no program yet" changes nothing; any other error is
    /// recorded, and the last good vertices are shown.
    pub fn record_frame(&mut self, result: Result<(), String>) -> (o: FrameOutcome)
        ensures
            final(self).source_lines == old(self).source_lines,
            final(self).source_bytes == old(self).source_bytes,
            match result {
                Ok(_) => o == FrameOutcome::Fresh && final(self).error_msg is None,
                Err(e) => o == FrameOutcome::Stale && if e@ == no_script_text() {
                    final(self).error_msg == old(self).error_msg
                } else {
                    final(self).error_msg == Some(e)
                },
            },
    {
        match result {
            Ok(()) => {
                self.error_msg = None;
                FrameOutcome::Fresh
            },
            Err(e) => {
                if !str_eq(e.as_str(), "__no_script__") {
                    self.error_msg = Some(e);
                }
                FrameOutcome::Stale
            },
        }
    }

    /// The JSON report of the run: the escaped error where there is one, else the
    /// shape and vertex counts, the compile time text and the source statistics.
    pub fn report(&self, shapes: usize, vertices: usize, compile_ms: &str) -> (r: String)
        ensures
            match self.error_msg {
                Some(e) => r@ == error_report_text(e@),
                None => r@ == ok_report_text(
                    shapes as nat,
                    vertices as nat,
                    compile_ms@,
                    self.source_lines as nat,
                    self.source_bytes as nat,
                ),
            },
    {
        match &self.error_msg {
            Some(e) => error_report(e.as_str()),
            None => ok_report(shapes, vertices, compile_ms, self.source_lines, self.source_bytes),
        }
    }
}

/// Signals exchanged with the script around each frame: the context-menu labels
/// it offers, the entry the user picked, and whether it draws its own cursor.
pub struct Overlay {
    items: String,
    selected: i32,
    cursor_custom: bool,
}

impl Overlay {
    /// The context-menu labels, separated by `|`; empty for no menu.
    pub closed spec fn items_text(&self) -> Seq<char> {
        self.items@
    }

    /// The picked entry not yet handed to the script, `-1` for none.
    pub closed spec fn selection(&self) -> i32 {
        self.selected
    }

    /// Whether the script draws its own cursor.
    pub closed spec fn custom_cursor(&self) -> bool {
        self.cursor_custom
    }

    /// No menu, nothing picked, default cursor.
    pub fn new() -> (o: Overlay)
        ensures
            o.items_text().len() == 0,
            o.selection() == -1,
            !o.custom_cursor(),
    {
        Overlay { items: String::new(), selected: -1, cursor_custom: false }
    }

    /// Sets the context-menu labels offered by the script.
    pub fn set_items(&mut self, items: String)
        ensures
            final(self).items_text() == items@,
            final(self).selection() == old(self).selection(),
            final(self).custom_cursor() == old(self).custom_cursor(),
    {
        self.items = items;
    }

    /// The context-menu labels, separated by `|`.
    pub fn items(&self) -> (s: String)
        ensures
            s@ == self.items_text(),
    {
        self.items.clone()
    }

    /// Records the entry the user picked.
    pub fn select(&mut self, index: i32)
        ensures
            final(self).selection() == index,
            final(self).items_text() == old(self).items_text(),
            final(self).custom_cursor() == old(self).custom_cursor(),
    {
        self.selected = index;
    }

    /// Hands over the picked entry and forgets it.
    pub fn take_selected(&mut self) -> (r: i32)
        ensures
            r == old(self).selection(),
            final(self).selection() == -1,
            final(self).items_text() == old(self).items_text(),
            final(self).custom_cursor() == old(self).custom_cursor(),
    {
        let v = self.selected;
        self.selected = -1;
        v
    }

    /// Records whether the script draws its own cursor.
    pub fn set_cursor_custom(&mut self, on: bool)
        ensures
            final(self).custom_cursor() == on,
            final(self).items_text() == old(self).items_text(),
            final(self).selection() == old(self).selection(),
    {
        self.cursor_custom = on;
    }

    /// Whether the script draws its own cursor.
    pub fn cursor_custom(&self) -> (b: bool)
        ensures
            b == self.custom_cursor(),
    {
        self.cursor_custom
    }
}

} // verus!
