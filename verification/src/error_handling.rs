//! Diagnostics that point back into a source file.

use std::sync::Arc;
use vstd::prelude::*;
use vstd::string::StringExecFns;
use crate::text::{chars_of, decimal, push_decimal, push_str};

verus! {

/// A file from which code is read.
#[derive(Debug)]
pub struct SourceFile {
    pub text: String,
    pub path: String,
}

/// `Arc::clone` of std: the new handle points at the same file.
#[verifier::external_body]
pub(crate) fn share_file(file: &Arc<SourceFile>) -> (res: Arc<SourceFile>)
    ensures
        res == *file,
{
    Arc::clone(file)
}

/// A reference to a range of characters on one line of a source file.
#[derive(Debug)]
pub struct FileRef {
    pub file: Arc<SourceFile>,
    pub line_index: u32,
    /// The first character of text included in the reference.
    pub begin_char_index: u32,
    pub length: u32,
}

impl Clone for FileRef {
    fn clone(&self) -> (res: Self)
        ensures
            res == *self,
    {
        FileRef {
            file: share_file(&self.file),
            line_index: self.line_index,
            begin_char_index: self.begin_char_index,
            length: self.length,
        }
    }
}

/// A single compilation error, linked to a location in the source file.
#[derive(Debug)]
pub struct FileTaggedError {
    /// `None` for errors of the link step, which have no location.
    pub position: Option<FileRef>,
    pub msg: String,
}

/// What a diagnostic says: where, and the message as characters.
pub struct ErrorView {
    pub position: Option<FileRef>,
    pub msg: Seq<char>,
}

impl View for FileTaggedError {
    type V = ErrorView;

    open spec fn view(&self) -> ErrorView {
        ErrorView { position: self.position, msg: self.msg@ }
    }
}

impl Clone for FileTaggedError {
    fn clone(&self) -> (res: Self)
        ensures
            res@ == self@,
    {
        let position = match &self.position {
            Some(p) => Some(p.clone()),
            None => None,
        };
        FileTaggedError { position, msg: self.msg.clone() }
    }
}

/// The views of a sequence of diagnostics, in order.
pub open spec fn errors_view(errors: Seq<FileTaggedError>) -> Seq<ErrorView> {
    errors.map_values(|e: FileTaggedError| e@)
}

/// The errors that one pass over the source collected.
#[derive(Debug)]
pub struct CompileErrors(pub Vec<FileTaggedError>);

impl View for CompileErrors {
    type V = Seq<ErrorView>;

    open spec fn view(&self) -> Seq<ErrorView> {
        errors_view(self.0@)
    }
}

/// The result of a pass: a value, or every error that the pass found.
pub type CompileResult<T> = Result<T, CompileErrors>;

/// One located diagnostic.
pub open spec fn located(position: FileRef, msg: Seq<char>) -> Seq<ErrorView> {
    seq![ErrorView { position: Some(position), msg }]
}

/// One diagnostic without a location.
pub open spec fn unlocated(msg: Seq<char>) -> Seq<ErrorView> {
    seq![ErrorView { position: None, msg }]
}

/// A single located error with the given message.
pub fn error_at(position: FileRef, msg: String) -> (errors: CompileErrors)
    ensures
        errors@ == located(position, msg@),
{
    let mut list: Vec<FileTaggedError> = Vec::new();
    list.push(FileTaggedError { position: Some(position), msg });
    let errors = CompileErrors(list);
    assert(errors@ =~= located(position, msg@));
    errors
}

/// A single error without a location.
pub fn untagged_error(msg: String) -> (errors: CompileErrors)
    ensures
        errors@ == unlocated(msg@),
{
    let mut list: Vec<FileTaggedError> = Vec::new();
    list.push(FileTaggedError { position: None, msg });
    let errors = CompileErrors(list);
    assert(errors@ =~= unlocated(msg@));
    errors
}

/// Moves the errors of `more` to the end of `errors`.
pub fn append_errors(errors: &mut Vec<FileTaggedError>, more: CompileErrors)
    ensures
        errors_view(final(errors)@) == errors_view(old(errors)@) + more@,
{
    let mut list = more.0;
    errors.append(&mut list);
    assert(errors_view(errors@) =~= errors_view(old(errors)@) + more@);
}

/// The place of the next line feed from `from` on, or the end of the text.
pub open spec fn line_end(text: Seq<char>, from: int) -> int
    decreases text.len() - from,
{
    if 0 <= from < text.len() && text[from] != '\n' {
        line_end(text, from + 1)
    } else {
        from
    }
}

/// Where the line with the index `n`, counted from the line that starts at `from`,
/// starts. A text that ends with a line feed has no line after it.
pub open spec fn line_start(text: Seq<char>, from: int, n: nat) -> Option<int>
    decreases n,
{
    if !(0 <= from < text.len()) {
        None
    } else if n == 0 {
        Some(from)
    } else {
        line_start(text, line_end(text, from) + 1, (n - 1) as nat)
    }
}

/// The line that starts at `start`, without its line feed and without a carriage
/// return just before the line feed.
pub open spec fn line_at(text: Seq<char>, start: int) -> Seq<char> {
    let end = line_end(text, start);
    if end < text.len() && start < end && text[end - 1] == '\r' {
        text.subrange(start, end - 1)
    } else {
        text.subrange(start, end)
    }
}

/// The line with the index `n` as a diagnostic shows it.
pub open spec fn shown_line(text: Seq<char>, n: nat) -> Seq<char> {
    match line_start(text, 0, n) {
        Some(start) => line_at(text, start),
        None => "<end of file>"@,
    }
}

/// `count` times the character `c`.
pub open spec fn repeated(c: char, count: nat) -> Seq<char> {
    Seq::new(count, |i: int| c)
}

/// A diagnostic as it is shown: a separator; for one with a location the path with
/// the line number, the line itself, and carets under the span with the message
/// behind them; for one without, the message alone.
pub open spec fn error_text(error: ErrorView) -> Seq<char> {
    "-------------\n"@ + match error.position {
        Some(position) => "at "@ + position.file.path@ + ":"@ + decimal(
            position.line_index.wrapping_add(1) as nat,
        ) + ":\n\n-> "@ + shown_line(position.file.text@, position.line_index as nat)
            + "\n-> "@ + repeated(' ', position.begin_char_index as nat) + repeated(
            '^',
            position.length as nat,
        ) + " "@ + error.msg + "\n"@,
        None => error.msg + "\n"@,
    }
}

/// The shown diagnostics from `from` on, each followed by an empty line.
pub open spec fn errors_text(errors: Seq<ErrorView>, from: int) -> Seq<char>
    decreases errors.len() - from,
{
    if 0 <= from < errors.len() {
        error_text(errors[from]) + "\n"@ + errors_text(errors, from + 1)
    } else {
        seq![]
    }
}

/// The report of a failed pass: the number of errors, then each of them.
pub open spec fn report_text(errors: Seq<ErrorView>) -> Seq<char> {
    (if errors.len() == 1 {
        "1 error generated:\n"@
    } else {
        decimal(errors.len()) + " errors generated:\n"@
    }) + errors_text(errors, 0)
}

fn push_repeated(out: &mut String, c: char, count: u32)
    ensures
        final(out)@ == old(out)@ + repeated(c, count as nat),
{
    let mut i: u32 = 0;
    assert(out@ =~= old(out)@ + repeated(c, 0));
    while i < count
        invariant
            i <= count,
            out@ == old(out)@ + repeated(c, i as nat),
        decreases count - i,
    {
        out.push(c);
        i += 1;
        assert(out@ =~= old(out)@ + repeated(c, i as nat));
    }
}

/// Appends the line with the index `n` of `text`, as a diagnostic shows it.
#[verifier::loop_isolation(false)]
fn push_shown_line(out: &mut String, text: &str, n: u32)
    ensures
        final(out)@ == old(out)@ + shown_line(text@, n as nat),
{
    let chars = chars_of(text);
    let length = chars.len();
    let mut start: usize = 0;
    let mut left: u32 = n;
    while left > 0
        invariant
            start <= length,
            out@ == old(out)@,
            line_start(chars@, start as int, left as nat) == line_start(chars@, 0, n as nat),
        decreases left,
    {
        if start >= length {
            push_str(out, "<end of file>");
            return;
        }
        let mut end: usize = start;
        while end < length && chars[end] != '\n'
            invariant
                start <= end <= length,
                line_end(chars@, end as int) == line_end(chars@, start as int),
            decreases length - end,
        {
            end += 1;
        }
        assert(line_end(chars@, start as int) == end);
        if end >= length {
            assert(line_start(chars@, end + 1, (left - 1) as nat) is None);
            assert(line_start(chars@, start as int, left as nat) is None);
            push_str(out, "<end of file>");
            return;
        }
        assert(line_start(chars@, start as int, left as nat) == line_start(
            chars@,
            end + 1,
            (left - 1) as nat,
        ));
        start = end + 1;
        left -= 1;
    }
    if start >= length {
        push_str(out, "<end of file>");
        return;
    }
    let mut end: usize = start;
    while end < length && chars[end] != '\n'
        invariant
            length == chars@.len(),
            start <= end <= length,
            line_end(chars@, end as int) == line_end(chars@, start as int),
            out@ == old(out)@ + chars@.subrange(start as int, end as int),
            start < end && end < length && chars@[end as int] == '\n' ==> chars@[end - 1]
                != '\r',
        decreases length - end,
    {
        let c = chars[end];
        if c == '\r' && end + 1 < length && chars[end + 1] == '\n' {
            assert(line_end(chars@, end + 1) == end + 1);
            assert(line_end(chars@, end as int) == end + 1);
            return;
        }
        out.push(c);
        end += 1;
        assert(out@ =~= old(out)@ + chars@.subrange(start as int, end as int));
    }
    assert(line_end(chars@, end as int) == end);
}

impl FileTaggedError {
    /// The diagnostic as it is shown to the user.
    pub fn to_string(&self) -> (text: String)
        ensures
            text@ == error_text(self@),
    {
        let mut text = String::from_str("-------------\n");
        match &self.position {
            Some(position) => {
                push_str(&mut text, "at ");
                push_str(&mut text, position.file.path.as_str());
                push_str(&mut text, ":");
                push_decimal(&mut text, position.line_index.wrapping_add(1) as u64);
                push_str(&mut text, ":\n\n-> ");
                push_shown_line(&mut text, position.file.text.as_str(), position.line_index);
                push_str(&mut text, "\n-> ");
                push_repeated(&mut text, ' ', position.begin_char_index);
                push_repeated(&mut text, '^', position.length);
                push_str(&mut text, " ");
                push_str(&mut text, self.msg.as_str());
                push_str(&mut text, "\n");
                assert(text@ =~= error_text(self@));
            },
            None => {
                push_str(&mut text, self.msg.as_str());
                push_str(&mut text, "\n");
                assert(text@ =~= error_text(self@));
            },
        }
        text
    }
}

impl CompileErrors {
    /// The report of the errors as it is shown to the user.
    pub fn to_string(&self) -> (text: String)
        ensures
            text@ == report_text(self@),
    {
        let mut text = String::new();
        if self.0.len() == 1 {
            push_str(&mut text, "1 error generated:\n");
        } else {
            push_decimal(&mut text, self.0.len() as u64);
            push_str(&mut text, " errors generated:\n");
        }
        let ghost head = text@;
        let ghost all = self@;
        assert(head =~= report_text(all).subrange(0, head.len() as int)) by {
            assert(report_text(all) =~= head + errors_text(all, 0));
        }
        let mut i: usize = 0;
        while i < self.0.len()
            invariant
                i <= self.0@.len(),
                all == self@,
                all.len() == self.0@.len(),
                text@ + errors_text(all, i as int) == head + errors_text(all, 0),
            decreases self.0@.len() - i,
        {
            let ghost before = text@;
            let shown = self.0[i].to_string();
            assert(all[i as int] == self.0@[i as int]@);
            push_str(&mut text, shown.as_str());
            push_str(&mut text, "\n");
            assert(text@ + errors_text(all, i + 1) =~= before + errors_text(all, i as int));
            i += 1;
        }
        assert(text@ =~= report_text(all));
        text
    }
}

} // verus!
