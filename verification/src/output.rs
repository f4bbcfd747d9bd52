//! What the output of BitBake commands says.
use crate::collections;
use crate::layers;
use crate::numbers;
use crate::operator;
use crate::text;
use crate::numbers::parse_unsigned;
use crate::operator::is_at;
use crate::text::CharClass;
use crate::text::append_chars;
use crate::text::append_str;
use crate::text::chars_of;
use crate::text::contains_char;
use crate::text::copy_chars;
use crate::text::ends_with;
use crate::text::find_str;
use crate::text::lead_index;
use crate::text::next_line_end;
use crate::text::rfind_str;
use crate::text::split_line_ending;
use crate::text::starts_with;
use crate::text::string_of;
use crate::text::trim;
use crate::text::trim_start;
use vstd::prelude::*;
use vstd::slice::slice_subrange;

verus! {

// ---------------------------------------------------------------------------
// Lines
// ---------------------------------------------------------------------------
/// The lines of `t[i..]` without their endings.
pub open spec fn lines_from(t: Seq<char>, i: int) -> Seq<Seq<char>>
    decreases t.len() - i,
{
    let e = text::line_end(t, i);
    if 0 <= i < e <= t.len() {
        seq![text::line_content(t.subrange(i, e))] + lines_from(t, e)
    } else {
        Seq::empty()
    }
}

/// The lines of a text without their endings.
pub open spec fn text_lines(t: Seq<char>) -> Seq<Seq<char>> {
    lines_from(t, 0)
}

/// The lines of a text without their endings.
pub fn split_lines(t: &[char]) -> (r: Vec<Vec<char>>)
    ensures
        collections::char_texts(r@) == text_lines(t@),
{
    let mut out: Vec<Vec<char>> = Vec::new();
    let mut i: usize = 0;
    assert(collections::char_texts(out@) =~= Seq::empty());
    assert(Seq::<Seq<char>>::empty() + lines_from(t@, 0) =~= text_lines(t@));
    while i < t.len()
        invariant
            i <= t@.len(),
            collections::char_texts(out@) + lines_from(t@, i as int) == text_lines(t@),
        decreases t@.len() - i,
    {
        let e = next_line_end(t, i);
        let (content, _) = split_line_ending(slice_subrange(t, i, e));
        let ghost before = collections::char_texts(out@);
        out.push(copy_chars(content));
        proof {
            let rest = lines_from(t@, e as int);
            assert(collections::char_texts(out@) =~= before.push(content@));
            assert(before + (seq![content@] + rest) =~= before.push(content@) + rest);
        }
        i = e;
    }
    assert(collections::char_texts(out@) + Seq::<Seq<char>>::empty() =~= collections::char_texts(out@));
    out
}

// ---------------------------------------------------------------------------
// Commands
// ---------------------------------------------------------------------------
/// What a command did: whether it succeeded, and what it wrote.
#[derive(Clone, Debug, Eq, PartialEq)]
pub struct CommandOutput {
    pub success: bool,
    pub stdout: String,
    pub stderr: String,
}

#[verifier::ext_equal]
pub struct OutputView {
    pub success: bool,
    pub stdout: Seq<char>,
    pub stderr: Seq<char>,
}

impl CommandOutput {
    pub open spec fn view(&self) -> OutputView {
        OutputView { success: self.success, stdout: self.stdout@, stderr: self.stderr@ }
    }
}

/// The contents of a list of outputs.
pub open spec fn output_views(items: Seq<CommandOutput>) -> Seq<OutputView> {
    items.map_values(|o: CommandOutput| o@)
}

/// Both streams of a command, the second on a line of its own.
pub open spec fn combined(o: OutputView) -> Seq<char> {
    if o.stderr.len() == 0 {
        o.stdout
    } else if o.stdout.len() > 0 && o.stdout.last() != '\n' {
        o.stdout + "\n"@ + o.stderr
    } else {
        o.stdout + o.stderr
    }
}

/// Both streams of a command, the second on a line of its own.
pub fn combined_output(output: &CommandOutput) -> (r: String)
    ensures
        r@ == combined(output@),
{
    let mut out = chars_of(output.stdout.as_str());
    let stderr = chars_of(output.stderr.as_str());
    if stderr.len() > 0 {
        if out.len() > 0 && out[out.len() - 1] != '\n' {
            append_str(&mut out, "\n");
        }
        append_chars(&mut out, stderr.as_slice());
    }
    string_of(out.as_slice())
}

/// The lower-case form of an ASCII letter; other characters stay.
pub open spec fn lower(c: char) -> char {
    if 'A' <= c <= 'Z' {
        ((c as u8) + 32) as char
    } else {
        c
    }
}

/// A text with its ASCII letters in lower case.
pub open spec fn lowered(t: Seq<char>) -> Seq<char> {
    t.map_values(|c: char| lower(c))
}

fn lower_char(c: char) -> (r: char)
    ensures
        r == lower(c),
{
    if 'A' <= c && c <= 'Z' {
        ((c as u8) + 32) as char
    } else {
        c
    }
}

fn lower_chars(t: &[char]) -> (r: Vec<char>)
    ensures
        r@ == lowered(t@),
{
    let mut out: Vec<char> = Vec::new();
    let mut k: usize = 0;
    while k < t.len()
        invariant
            k <= t@.len(),
            out@.len() == k,
            forall|j: int| 0 <= j < k ==> #[trigger] out@[j] == lower(t@[j]),
        decreases t@.len() - k,
    {
        out.push(lower_char(t[k]));
        k += 1;
    }
    assert(out@ =~= lowered(t@));
    out
}

/// Whether a text holds `part`.
pub open spec fn holds_text(t: Seq<char>, part: Seq<char>) -> bool {
    text::find_seq(t, part, 0) >= 0
}

/// Whether a text holds `part`.
pub fn contains_text(t: &[char], part: &str) -> (r: bool)
    ensures
        r == holds_text(t@, part@),
{
    find_str(t, chars_of(part).as_slice(), 0).is_some()
}

/// Whether a line names the version of BitBake.
pub open spec fn version_line(line: Seq<char>) -> bool {
    holds_text(line, "BitBake"@) && holds_text(lowered(line), "version"@)
}

/// The first of `lines[k..]` that names the version of BitBake.
pub open spec fn version_from(lines: Seq<Seq<char>>, k: int) -> Option<Seq<char>>
    decreases lines.len() - k,
{
    if k < 0 || k >= lines.len() {
        None
    } else if version_line(lines[k]) {
        let line = text::trimmed(lines[k], CharClass::Whitespace);
        if line.len() > 0 {
            Some(line)
        } else {
            None
        }
    } else {
        version_from(lines, k + 1)
    }
}

/// The version that a command reports.
pub open spec fn reported_version(o: OutputView) -> Option<Seq<char>> {
    version_from(text_lines(combined(o)), 0)
}

/// The version that a command reports.
pub fn parse_version(output: &CommandOutput) -> (r: Option<String>)
    ensures
        collections::optional_text(r) == reported_version(output@),
{
    let text = chars_of(combined_output(output).as_str());
    let lines = split_lines(text.as_slice());
    let ghost all = collections::char_texts(lines@);
    let mut k: usize = 0;
    while k < lines.len()
        invariant
            k <= lines@.len(),
            all == collections::char_texts(lines@),
            all == text_lines(combined(output@)),
            version_from(all, 0) == version_from(all, k as int),
        decreases lines@.len() - k,
    {
        assert(all[k as int] == lines@[k as int]@);
        let line = lines[k].as_slice();
        if contains_text(line, "BitBake") && contains_text(
            lower_chars(line).as_slice(),
            "version",
        ) {
            let line = trim(line, CharClass::Whitespace);
            return if line.len() > 0 {
                Some(string_of(line))
            } else {
                None
            };
        }
        k += 1;
    }
    None
}

// ---------------------------------------------------------------------------
// Diagnostics
// ---------------------------------------------------------------------------
/// Severity of a diagnostic emitted by BitBake during semantic analysis.
#[derive(Clone, Copy, Debug, Eq, PartialEq, Structural)]
pub enum SemanticSeverity {
    Debug,
    Note,
    Warning,
    Error,
}

pub open spec fn semantic_word(severity: SemanticSeverity) -> Seq<char> {
    match severity {
        SemanticSeverity::Debug => "debug"@,
        SemanticSeverity::Note => "note"@,
        SemanticSeverity::Warning => "warning"@,
        SemanticSeverity::Error => "error"@,
    }
}

impl SemanticSeverity {
    /// The word for the severity.
    pub fn as_str(self) -> (r: &'static str)
        ensures
            r@ == semantic_word(self),
    {
        match self {
            SemanticSeverity::Debug => "debug",
            SemanticSeverity::Note => "note",
            SemanticSeverity::Warning => "warning",
            SemanticSeverity::Error => "error",
        }
    }
}

/// The BitBake phase that produced a semantic diagnostic.
#[derive(Clone, Copy, Debug, Eq, PartialEq, Structural)]
pub enum SemanticDiagnosticPhase {
    Parse,
    TargetQuery,
    DependencyGraph,
    DryRun,
    Inventory,
    PackageSummary,
}

/// The stream from which BitBake emitted a semantic diagnostic.
#[derive(Clone, Copy, Debug, Eq, PartialEq, Structural)]
pub enum SemanticDiagnosticStream {
    Stdout,
    Stderr,
}

/// A source-aware diagnostic parsed from BitBake's standard output or error.
#[derive(Clone, Debug, Eq, PartialEq)]
pub struct SemanticDiagnostic {
    phase: SemanticDiagnosticPhase,
    target: Option<String>,
    stream: SemanticDiagnosticStream,
    severity: SemanticSeverity,
    path: Option<String>,
    line: Option<usize>,
    column: Option<usize>,
    message: String,
    raw: String,
}

#[verifier::ext_equal]
pub struct SemanticView {
    pub phase: SemanticDiagnosticPhase,
    pub target: Option<Seq<char>>,
    pub stream: SemanticDiagnosticStream,
    pub severity: SemanticSeverity,
    pub path: Option<Seq<char>>,
    pub line: Option<usize>,
    pub column: Option<usize>,
    pub message: Seq<char>,
    pub raw: Seq<char>,
}

impl SemanticDiagnostic {
    pub closed spec fn view(&self) -> SemanticView {
        SemanticView {
            phase: self.phase,
            target: collections::optional_text(self.target),
            stream: self.stream,
            severity: self.severity,
            path: collections::optional_text(self.path),
            line: self.line,
            column: self.column,
            message: self.message@,
            raw: self.raw@,
        }
    }

    /// The phase that produced the diagnostic.
    pub fn phase(&self) -> (r: SemanticDiagnosticPhase)
        ensures
            r == self@.phase,
    {
        self.phase
    }

    /// The target that was asked about.
    pub fn target(&self) -> (r: Option<&str>)
        ensures
            match r {
                Some(target) => self@.target == Some(target@),
                None => self@.target is None,
            },
    {
        match &self.target {
            Some(target) => Some(target.as_str()),
            None => None,
        }
    }

    /// The stream that the diagnostic was written to.
    pub fn stream(&self) -> (r: SemanticDiagnosticStream)
        ensures
            r == self@.stream,
    {
        self.stream
    }

    /// The severity of the diagnostic.
    pub fn severity(&self) -> (r: SemanticSeverity)
        ensures
            r == self@.severity,
    {
        self.severity
    }

    /// The file that the diagnostic is about.
    pub fn path(&self) -> (r: Option<&str>)
        ensures
            match r {
                Some(path) => self@.path == Some(path@),
                None => self@.path is None,
            },
    {
        match &self.path {
            Some(path) => Some(path.as_str()),
            None => None,
        }
    }

    /// The line that the diagnostic is about.
    pub fn line(&self) -> (r: Option<usize>)
        ensures
            r == self@.line,
    {
        self.line
    }

    /// The column that the diagnostic is about.
    pub fn column(&self) -> (r: Option<usize>)
        ensures
            r == self@.column,
    {
        self.column
    }

    /// What BitBake said.
    pub fn message(&self) -> (r: &str)
        ensures
            r@ == self@.message,
    {
        self.message.as_str()
    }

    /// The line that BitBake wrote.
    pub fn raw(&self) -> (r: &str)
        ensures
            r@ == self@.raw,
    {
        self.raw.as_str()
    }

    /// A copy of the diagnostic.
    pub fn copy(&self) -> (r: SemanticDiagnostic)
        ensures
            r@ == self@,
    {
        SemanticDiagnostic {
            phase: self.phase,
            target: copy_optional(&self.target),
            stream: self.stream,
            severity: self.severity,
            path: copy_optional(&self.path),
            line: self.line,
            column: self.column,
            message: self.message.clone(),
            raw: self.raw.clone(),
        }
    }
}

/// A copy of an optional string.
pub fn copy_optional(text: &Option<String>) -> (r: Option<String>)
    ensures
        collections::optional_text(r) == collections::optional_text(*text),
{
    match text {
        Some(text) => Some(text.clone()),
        None => None,
    }
}

/// An optional string of an optional slice.
pub open spec fn optional_view(text: Option<&str>) -> Option<Seq<char>> {
    match text {
        Some(text) => Some(text@),
        None => None,
    }
}

fn own_optional(text: Option<&str>) -> (r: Option<String>)
    ensures
        collections::optional_text(r) == optional_view(text),
{
    match text {
        Some(text) => Some(text.to_owned()),
        None => None,
    }
}

/// The contents of a list of diagnostics.
pub open spec fn semantic_views(items: Seq<SemanticDiagnostic>) -> Seq<SemanticView> {
    items.map_values(|d: SemanticDiagnostic| d@)
}

/// Appends copies of diagnostics.
pub fn append_diagnostics(items: &mut Vec<SemanticDiagnostic>, more: &Vec<SemanticDiagnostic>)
    ensures
        semantic_views(final(items)@) == semantic_views(old(items)@) + semantic_views(more@),
{
    let ghost before = semantic_views(items@);
    let ghost added = semantic_views(more@);
    let mut k: usize = 0;
    assert(before + added.take(0) =~= before);
    while k < more.len()
        invariant
            k <= more@.len(),
            added == semantic_views(more@),
            semantic_views(items@) == before + added.take(k as int),
        decreases more@.len() - k,
    {
        let ghost now = semantic_views(items@);
        items.push(more[k].copy());
        k += 1;
        proof {
            assert(added[k - 1] == more@[k - 1]@);
            assert(semantic_views(items@) =~= now.push(added[k - 1]));
            assert(added.take(k as int) =~= added.take(k - 1).push(added[k - 1]));
        }
    }
    assert(added.take(k as int) =~= added);
}

/// The first position from `i` that is not a digit.
pub open spec fn digits_end(t: Seq<char>, i: int) -> int
    decreases t.len() - i,
{
    if i < 0 || i >= t.len() {
        t.len() as int
    } else if text::is_digit(t[i]) {
        digits_end(t, i + 1)
    } else {
        i
    }
}

fn find_digits_end(t: &[char], start: usize) -> (r: usize)
    requires
        start <= t@.len(),
    ensures
        r == digits_end(t@, start as int),
        start <= r <= t@.len(),
{
    let mut i: usize = start;
    while i < t.len() && '0' <= t[i] && t[i] <= '9'
        invariant
            start <= i <= t@.len(),
            digits_end(t@, start as int) == digits_end(t@, i as int),
        decreases t@.len() - i,
    {
        i += 1;
    }
    i
}

/// The number that `t` writes, where it fits.
pub open spec fn number_of(t: Seq<char>) -> Option<usize> {
    match numbers::integer_value(t, false, 0, usize::MAX as int) {
        Some(n) => Some(n as usize),
        None => None,
    }
}

fn read_number(t: &[char]) -> (r: Option<usize>)
    ensures
        r == number_of(t@),
{
    match parse_unsigned(t, usize::MAX as u64) {
        Some(n) => Some(n as usize),
        None => None,
    }
}

/// Whether a text has the form of a path to metadata.
pub open spec fn path_like(t: Seq<char>) -> bool {
    text::has_suffix(t, ".bb"@) || text::has_suffix(t, ".bbappend"@) || text::has_suffix(t, ".bbclass"@)
        || text::has_suffix(t, ".inc"@) || text::has_suffix(t, ".conf"@) || t.contains('/') || t.contains('\\')
}

fn looks_like_path(t: &[char]) -> (r: bool)
    ensures
        r == path_like(t@),
{
    ends_with(t, ".bb") || ends_with(t, ".bbappend") || ends_with(t, ".bbclass") || ends_with(
        t,
        ".inc",
    ) || ends_with(t, ".conf") || contains_char(t, '/') || contains_char(t, '\\')
}

/// What stands before a location: the text after the last ` at `, or all of
/// it.
pub open spec fn place_text(t: Seq<char>) -> Seq<char> {
    let before = text::trimmed(t, CharClass::Whitespace);
    let at = text::rfind_seq(before, " at "@, before.len() as int);
    if at >= 0 {
        text::trimmed(before.skip(at + 4), CharClass::Whitespace)
    } else {
        before
    }
}

fn read_place(t: &[char]) -> (r: Vec<char>)
    ensures
        r@ == place_text(t@),
{
    proof {
        reveal_strlit(" at ");
    }
    let before = trim(t, CharClass::Whitespace);
    let size = before.len();
    let word = chars_of(" at ");
    match rfind_str(before, word.as_slice()) {
        Some(at) => {
            let rest = slice_subrange(before, at + word.len(), size);
            assert(rest@ =~= before@.skip(at + 4));
            copy_chars(trim(rest, CharClass::Whitespace))
        },
        None => copy_chars(before),
    }
}

/// A location in a file, and the message about it.
#[verifier::ext_equal]
pub struct LocationView {
    pub path: Option<Seq<char>>,
    pub line: Option<usize>,
    pub column: Option<usize>,
    pub message: Seq<char>,
}

/// The position after the blanks of `t` from `i`.
pub open spec fn after_blanks(t: Seq<char>, i: int) -> int {
    text::lead_from(t, CharClass::Ascii, i)
}

/// Whether a line number stands between the colon at `i` and the next one.
pub open spec fn numbered(t: Seq<char>, i: int) -> bool {
    let end = digits_end(t, i + 1);
    operator::at(t, i, ':') && end > i + 1 && operator::at(t, end, ':')
}

/// The location whose path ends at the colon at `i`, where a line number
/// follows it.
pub open spec fn location_at(t: Seq<char>, i: int) -> LocationView {
    let end = digits_end(t, i + 1);
    let start = after_blanks(t, end + 1);
    let stop = digits_end(t, start);
    let has_column = stop > start && operator::at(t, stop, ':');
    LocationView {
        path: Some(place_text(t.take(i))),
        line: number_of(t.subrange(i + 1, end)),
        column: if has_column {
            number_of(t.subrange(start, stop))
        } else {
            None
        },
        message: text::trimmed(
            t.skip(
                after_blanks(
                    t,
                    if has_column {
                        stop + 1
                    } else {
                        start
                    },
                ),
            ),
            CharClass::Whitespace,
        ),
    }
}

/// The first location of `t` from the colon at or after `i`.
pub open spec fn location_from(t: Seq<char>, i: int) -> LocationView
    decreases t.len() - i,
{
    if i < 0 || i >= t.len() {
        LocationView {
            path: None,
            line: None,
            column: None,
            message: text::trimmed(t, CharClass::Whitespace),
        }
    } else if numbered(t, i) && place_text(t.take(i)).len() > 0 && path_like(place_text(t.take(i))) {
        location_at(t, i)
    } else {
        location_from(t, i + 1)
    }
}

struct Location {
    path: Option<String>,
    line: Option<usize>,
    column: Option<usize>,
    message: String,
}

impl Location {
    spec fn view(&self) -> LocationView {
        LocationView {
            path: collections::optional_text(self.path),
            line: self.line,
            column: self.column,
            message: self.message@,
        }
    }
}

fn read_location(t: &[char], i: usize, place: &[char]) -> (r: Location)
    requires
        i < t@.len(),
        numbered(t@, i as int),
        place@ == place_text(t@.take(i as int)),
    ensures
        r@ == location_at(t@, i as int),
{
    let size = t.len();
    let end = find_digits_end(t, i + 1);
    assert(end < size);
    let line = read_number(slice_subrange(t, i + 1, end));
    let start = lead_index(t, CharClass::Ascii, end + 1);
    let stop = find_digits_end(t, start);
    let has_column = stop > start && is_at(t, stop, ':');
    assert(has_column ==> stop < size);
    let column = if has_column {
        read_number(slice_subrange(t, start, stop))
    } else {
        None
    };
    let message_start = lead_index(
        t,
        CharClass::Ascii,
        if has_column {
            stop + 1
        } else {
            start
        },
    );
    let rest = slice_subrange(t, message_start, t.len());
    assert(rest@ =~= t@.skip(message_start as int));
    Location {
        path: Some(string_of(place)),
        line,
        column,
        message: string_of(trim(rest, CharClass::Whitespace)),
    }
}

fn parse_source_location(t: &[char]) -> (r: Location)
    ensures
        r@ == location_from(t@, 0),
{
    let mut i: usize = 0;
    while i < t.len()
        invariant
            i <= t@.len(),
            location_from(t@, 0) == location_from(t@, i as int),
        decreases t@.len() - i,
    {
        if t[i] == ':' {
            let end = find_digits_end(t, i + 1);
            if end > i + 1 && is_at(t, end, ':') {
                let before = slice_subrange(t, 0, i);
                assert(before@ =~= t@.take(i as int));
                let place = read_place(before);
                if place.len() > 0 && looks_like_path(place.as_slice()) {
                    return read_location(t, i, place.as_slice());
                }
            }
        }
        i += 1;
    }
    Location {
        path: None,
        line: None,
        column: None,
        message: string_of(trim(t, CharClass::Whitespace)),
    }
}

/// The end of a line without the carriage returns at its end.
pub open spec fn returns_end(t: Seq<char>) -> int {
    layers::run_start(t, '\r', t.len() as int)
}

/// The severity that a line begins with, and the length of its word.
pub open spec fn line_severity(line: Seq<char>) -> Option<(SemanticSeverity, int)> {
    if text::has_prefix(line, "DEBUG:"@) {
        Some((SemanticSeverity::Debug, 6))
    } else if text::has_prefix(line, "NOTE:"@) {
        Some((SemanticSeverity::Note, 5))
    } else if text::has_prefix(line, "WARNING:"@) {
        Some((SemanticSeverity::Warning, 8))
    } else if text::has_prefix(line, "ERROR:"@) {
        Some((SemanticSeverity::Error, 6))
    } else {
        None
    }
}

/// The diagnostic that a line of output is.
pub open spec fn line_diagnostic(
    text: Seq<char>,
    phase: SemanticDiagnosticPhase,
    target: Option<Seq<char>>,
    stream: SemanticDiagnosticStream,
) -> Option<SemanticView> {
    let line = text.take(returns_end(text));
    match line_severity(line) {
        Some((severity, n)) => {
            let location = location_from(
                text::trimmed_start(line.skip(n), CharClass::Whitespace),
                0,
            );
            Some(
                SemanticView {
                    phase,
                    target,
                    stream,
                    severity,
                    path: location.path,
                    line: location.line,
                    column: location.column,
                    message: location.message,
                    raw: line,
                },
            )
        },
        None => None,
    }
}

/// The diagnostics of `lines[k..]`.
pub open spec fn lines_diagnostics(
    lines: Seq<Seq<char>>,
    k: int,
    phase: SemanticDiagnosticPhase,
    target: Option<Seq<char>>,
    stream: SemanticDiagnosticStream,
) -> Seq<SemanticView>
    decreases lines.len() - k,
{
    if k < 0 || k >= lines.len() {
        Seq::empty()
    } else {
        match line_diagnostic(lines[k], phase, target, stream) {
            Some(found) => seq![found] + lines_diagnostics(lines, k + 1, phase, target, stream),
            None => lines_diagnostics(lines, k + 1, phase, target, stream),
        }
    }
}

/// The diagnostics in the output of a command.
pub open spec fn output_diagnostics(
    o: OutputView,
    phase: SemanticDiagnosticPhase,
    target: Option<Seq<char>>,
) -> Seq<SemanticView> {
    lines_diagnostics(
        text_lines(o.stdout),
        0,
        phase,
        target,
        SemanticDiagnosticStream::Stdout,
    ) + lines_diagnostics(
        text_lines(o.stderr),
        0,
        phase,
        target,
        SemanticDiagnosticStream::Stderr,
    )
}

fn parse_diagnostic_line(
    text: &[char],
    phase: SemanticDiagnosticPhase,
    target: Option<&str>,
    stream: SemanticDiagnosticStream,
) -> (r: Option<SemanticDiagnostic>)
    ensures
        match r {
            Some(found) => line_diagnostic(text@, phase, optional_view(target), stream) == Some(
                found@,
            ),
            None => line_diagnostic(text@, phase, optional_view(target), stream) is None,
        },
{
    let mut e: usize = text.len();
    while e > 0 && text[e - 1] == '\r'
        invariant
            e <= text@.len(),
            returns_end(text@) == layers::run_start(text@, '\r', e as int),
        decreases e,
    {
        e -= 1;
    }
    let line = slice_subrange(text, 0, e);
    assert(line@ =~= text@.take(returns_end(text@)));
    proof {
        reveal_strlit("DEBUG:");
        reveal_strlit("NOTE:");
        reveal_strlit("WARNING:");
        reveal_strlit("ERROR:");
    }
    let (severity, n): (SemanticSeverity, usize) = if starts_with(line, "DEBUG:") {
        (SemanticSeverity::Debug, 6)
    } else if starts_with(line, "NOTE:") {
        (SemanticSeverity::Note, 5)
    } else if starts_with(line, "WARNING:") {
        (SemanticSeverity::Warning, 8)
    } else if starts_with(line, "ERROR:") {
        (SemanticSeverity::Error, 6)
    } else {
        return None;
    };
    let rest = slice_subrange(line, n, line.len());
    assert(rest@ =~= line@.skip(n as int));
    let location = parse_source_location(trim_start(rest, CharClass::Whitespace));
    let r = SemanticDiagnostic {
        phase,
        target: own_optional(target),
        stream,
        severity,
        path: location.path,
        line: location.line,
        column: location.column,
        message: location.message,
        raw: string_of(line),
    };
    Some(r)
}

fn parse_stream(
    text: &str,
    phase: SemanticDiagnosticPhase,
    target: Option<&str>,
    stream: SemanticDiagnosticStream,
    out: &mut Vec<SemanticDiagnostic>,
)
    ensures
        semantic_views(final(out)@) == semantic_views(old(out)@) + lines_diagnostics(
            text_lines(text@),
            0,
            phase,
            optional_view(target),
            stream,
        ),
{
    let lines = split_lines(chars_of(text).as_slice());
    let ghost all = collections::char_texts(lines@);
    let ghost view = optional_view(target);
    let ghost goal = semantic_views(out@) + lines_diagnostics(all, 0, phase, view, stream);
    let mut k: usize = 0;
    while k < lines.len()
        invariant
            k <= lines@.len(),
            all == collections::char_texts(lines@),
            view == optional_view(target),
            semantic_views(out@) + lines_diagnostics(all, k as int, phase, view, stream) == goal,
        decreases lines@.len() - k,
    {
        assert(all[k as int] == lines@[k as int]@);
        if let Some(found) = parse_diagnostic_line(lines[k].as_slice(), phase, target, stream) {
            let ghost before = semantic_views(out@);
            let ghost added = found@;
            out.push(found);
            proof {
                let rest = lines_diagnostics(all, k + 1, phase, view, stream);
                assert(semantic_views(out@) =~= before.push(added));
                assert(before + (seq![added] + rest) =~= before.push(added) + rest);
            }
        }
        k += 1;
    }
    assert(semantic_views(out@) + Seq::<SemanticView>::empty() =~= semantic_views(out@));
}

/// The diagnostics in the output of a command.
pub fn parse_diagnostics(
    output: &CommandOutput,
    phase: SemanticDiagnosticPhase,
    target: Option<&str>,
) -> (r: Vec<SemanticDiagnostic>)
    ensures
        semantic_views(r@) == output_diagnostics(output@, phase, optional_view(target)),
{
    let mut out: Vec<SemanticDiagnostic> = Vec::new();
    assert(semantic_views(out@) =~= Seq::empty());
    parse_stream(
        output.stdout.as_str(),
        phase,
        target,
        SemanticDiagnosticStream::Stdout,
        &mut out,
    );
    parse_stream(
        output.stderr.as_str(),
        phase,
        target,
        SemanticDiagnosticStream::Stderr,
        &mut out,
    );
    assert(semantic_views(out@) =~= output_diagnostics(output@, phase, optional_view(target)));
    out
}

/// The diagnostic of an analysis that failed in itself.
pub open spec fn analysis_failure(
    phase: SemanticDiagnosticPhase,
    target: Option<Seq<char>>,
    message: Seq<char>,
) -> SemanticView {
    SemanticView {
        phase,
        target,
        stream: SemanticDiagnosticStream::Stderr,
        severity: SemanticSeverity::Error,
        path: None,
        line: None,
        column: None,
        message,
        raw: message,
    }
}

/// The diagnostic of an analysis that failed in itself.
pub fn analysis_diagnostic(phase: SemanticDiagnosticPhase, target: Option<&str>, message: &str) -> (r:
    SemanticDiagnostic)
    ensures
        r@ == analysis_failure(phase, optional_view(target), message@),
{
    SemanticDiagnostic {
        phase,
        target: own_optional(target),
        stream: SemanticDiagnosticStream::Stderr,
        severity: SemanticSeverity::Error,
        path: None,
        line: None,
        column: None,
        message: message.to_owned(),
        raw: message.to_owned(),
    }
}

} // verus!
