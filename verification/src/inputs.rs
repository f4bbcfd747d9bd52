//! Which files a command works on, how much it may read, and what it prints
//! when it formats them.
use crate::build_layers;
use crate::collections;
use crate::formatter;
use crate::numbers;
use crate::syntax;
use crate::text;
use crate::transaction;
use crate::tree;
use crate::build_layers::is_bitbake_file;
use crate::checks::long_phrase;
use crate::checks::phrase;
use crate::collections::push_text;
use crate::formatter::FormatOptions;
use crate::formatter::format_with_options;
use crate::numbers::decimal_chars;
use crate::output::copy_optional;
use crate::syntax::ParseFault;
use crate::text::append_chars;
use crate::text::chars_of;
use crate::text::same_str;
use crate::text::string_of;
use crate::text::text_length;
use crate::transaction::RequestView;
use crate::transaction::WriteRequest;
use crate::tree::FormatError;
use vstd::prelude::*;

verus! {

/// The exit code of a command that found differences or findings.
pub const EXIT_DIFFERENCES: i32 = 1;

/// The exit code of a command that failed.
pub const EXIT_ERROR: i32 = 2;

// ---------------------------------------------------------------------------
// Limits
// ---------------------------------------------------------------------------
/// How much one invocation may read.
#[derive(Clone, Copy, Debug, Eq, PartialEq, Structural)]
pub struct SafetyOptions {
    pub max_files: usize,
    pub max_bytes: u64,
}

/// The limits that hold where none are set.
pub open spec fn default_safety() -> SafetyOptions {
    SafetyOptions { max_files: 10_000, max_bytes: 268_435_456 }
}

impl Default for SafetyOptions {
    fn default() -> (r: SafetyOptions)
        ensures
            r == default_safety(),
    {
        SafetyOptions { max_files: 10_000, max_bytes: 268_435_456 }
    }
}

/// The given limits, else the configured ones.
pub open spec fn safety_of(
    configured: SafetyOptions,
    max_files: Option<usize>,
    max_bytes: Option<u64>,
) -> SafetyOptions {
    SafetyOptions {
        max_files: match max_files {
            Some(count) => count,
            None => configured.max_files,
        },
        max_bytes: match max_bytes {
            Some(count) => count,
            None => configured.max_bytes,
        },
    }
}

/// The limits of an invocation: those that it gives, else the configured ones.
pub fn effective_safety(
    configured: &SafetyOptions,
    max_files: Option<usize>,
    max_bytes: Option<u64>,
) -> (r: SafetyOptions)
    ensures
        r == safety_of(*configured, max_files, max_bytes),
{
    SafetyOptions {
        max_files: match max_files {
            Some(count) => count,
            None => configured.max_files,
        },
        max_bytes: match max_bytes {
            Some(count) => count,
            None => configured.max_bytes,
        },
    }
}

/// The size of a file that is to be read; why it is not known.
pub struct InputSize {
    pub path: String,
    pub size: Result<u64, String>,
}

/// What is wrong with sizes that add up to more than can be counted.
pub open spec fn size_overflow() -> Seq<char> {
    "safety limit exceeded: source size overflowed"@
}

/// The sum of `total` and the sizes `sizes[k..]`; what is wrong with them.
pub open spec fn input_bytes(sizes: Seq<InputSize>, k: int, total: nat) -> Result<nat, Seq<char>>
    decreases sizes.len() - k,
{
    if k < 0 || k >= sizes.len() {
        Ok(total)
    } else {
        match sizes[k].size {
            Err(error) => Err("could not inspect "@ + sizes[k].path@ + ": "@ + error@ + ""@),
            Ok(size) => if total + size > u64::MAX {
                Err(size_overflow())
            } else {
                input_bytes(sizes, k + 1, total + size as nat)
            },
        }
    }
}

/// What is said of too much to read.
pub open spec fn over_limit_message(found: nat, what: Seq<char>, most: nat) -> Seq<char> {
    "safety limit exceeded: "@ + numbers::decimal(found) + what + numbers::decimal(most) + ""@
}

/// Why inputs may not be read.
pub open spec fn input_limits_fault(
    count: nat,
    sizes: Seq<InputSize>,
    l: SafetyOptions,
) -> Option<Seq<char>> {
    if l.max_files == 0 {
        Some("safety limit max_files must be greater than zero"@)
    } else if l.max_bytes == 0 {
        Some("safety limit max_bytes must be greater than zero"@)
    } else if count > l.max_files {
        Some(over_limit_message(count, " files discovered, maximum is "@, l.max_files as nat))
    } else {
        match input_bytes(sizes, 0, 0) {
            Err(message) => Some(message),
            Ok(bytes) => if bytes > l.max_bytes {
                Some(
                    over_limit_message(bytes, " bytes discovered, maximum is "@, l.max_bytes as nat),
                )
            } else {
                None
            },
        }
    }
}

fn limit_message(found: u64, what: &str, most: u64) -> (r: String)
    ensures
        r@ == over_limit_message(found as nat, what@, most as nat),
{
    let text = long_phrase(
        "safety limit exceeded: ",
        decimal_chars(found).as_slice(),
        what,
        decimal_chars(most).as_slice(),
        "",
    );
    string_of(text.as_slice())
}

fn add_sizes(sizes: &Vec<InputSize>) -> (r: Result<u64, String>)
    ensures
        match input_bytes(sizes@, 0, 0) {
            Ok(bytes) => r matches Ok(found) && found == bytes,
            Err(message) => r matches Err(found) && found@ == message,
        },
{
    let mut total: u64 = 0;
    let mut k: usize = 0;
    while k < sizes.len()
        invariant
            k <= sizes@.len(),
            input_bytes(sizes@, k as int, total as nat) == input_bytes(sizes@, 0, 0),
        decreases sizes@.len() - k,
    {
        match &sizes[k].size {
            Err(error) => {
                let text = long_phrase(
                    "could not inspect ",
                    chars_of(sizes[k].path.as_str()).as_slice(),
                    ": ",
                    chars_of(error.as_str()).as_slice(),
                    "",
                );
                return Err(string_of(text.as_slice()));
            },
            Ok(size) => {
                if *size > u64::MAX - total {
                    return Err("safety limit exceeded: source size overflowed".to_owned());
                }
                total = total + *size;
            },
        }
        k += 1;
    }
    Ok(total)
}

/// Checks that `count` inputs, of which `sizes` are files, may be read.
pub fn validate_input_limits(count: usize, sizes: &Vec<InputSize>, limits: SafetyOptions) -> (r:
    Result<(), String>)
    ensures
        match input_limits_fault(count as nat, sizes@, limits) {
            Some(fault) => r matches Err(message) && message@ == fault,
            None => r is Ok,
        },
{
    if limits.max_files == 0 {
        return Err("safety limit max_files must be greater than zero".to_owned());
    }
    if limits.max_bytes == 0 {
        return Err("safety limit max_bytes must be greater than zero".to_owned());
    }
    if count > limits.max_files {
        return Err(
            limit_message(count as u64, " files discovered, maximum is ", limits.max_files as u64),
        );
    }
    match add_sizes(sizes) {
        Err(message) => Err(message),
        Ok(bytes) => if bytes > limits.max_bytes {
            Err(limit_message(bytes, " bytes discovered, maximum is ", limits.max_bytes))
        } else {
            Ok(())
        },
    }
}

/// A text and what it is formatted to.
#[derive(Clone, Debug, Eq, PartialEq)]
pub struct FormattedInput {
    pub label: String,
    /// The path of the file; standard input has none.
    pub path: Option<String>,
    pub original: String,
    pub formatted: String,
}

/// The bytes of `total` and the originals of `inputs[k..]`; nothing where they
/// are more than can be counted.
pub open spec fn original_bytes(inputs: Seq<FormattedInput>, k: int, total: nat) -> Option<nat>
    decreases inputs.len() - k,
{
    if k < 0 || k >= inputs.len() {
        Some(total)
    } else if total + text::byte_len(inputs[k].original@) > u64::MAX {
        None
    } else {
        original_bytes(inputs, k + 1, total + text::byte_len(inputs[k].original@))
    }
}

/// Why texts that were read may not be used.
pub open spec fn formatted_limits_fault(inputs: Seq<FormattedInput>, l: SafetyOptions) -> Option<
    Seq<char>,
> {
    if inputs.len() > l.max_files {
        Some(over_limit_message(inputs.len(), " files read, maximum is "@, l.max_files as nat))
    } else {
        match original_bytes(inputs, 0, 0) {
            None => Some(size_overflow()),
            Some(bytes) => if bytes > l.max_bytes {
                Some(over_limit_message(bytes, " bytes read, maximum is "@, l.max_bytes as nat))
            } else {
                None
            },
        }
    }
}

/// Checks that texts that were read may be used.
pub fn validate_formatted_limits(inputs: &Vec<FormattedInput>, limits: SafetyOptions) -> (r: Result<
    (),
    String,
>)
    ensures
        match formatted_limits_fault(inputs@, limits) {
            Some(fault) => r matches Err(message) && message@ == fault,
            None => r is Ok,
        },
{
    if inputs.len() > limits.max_files {
        return Err(
            limit_message(
                inputs.len() as u64,
                " files read, maximum is ",
                limits.max_files as u64,
            ),
        );
    }
    let mut total: u64 = 0;
    let mut k: usize = 0;
    while k < inputs.len()
        invariant
            k <= inputs@.len(),
            inputs@.len() <= limits.max_files,
            original_bytes(inputs@, k as int, total as nat) == original_bytes(inputs@, 0, 0),
        decreases inputs@.len() - k,
    {
        let size = text_length(inputs[k].original.as_str()) as u64;
        if size > u64::MAX - total {
            return Err("safety limit exceeded: source size overflowed".to_owned());
        }
        total = total + size;
        k += 1;
    }
    if total > limits.max_bytes {
        return Err(limit_message(total, " bytes read, maximum is ", limits.max_bytes));
    }
    Ok(())
}

// ---------------------------------------------------------------------------
// Inputs
// ---------------------------------------------------------------------------
/// How many of `paths[k..]` are standard input.
pub open spec fn stdin_count(paths: Seq<Seq<char>>, k: int) -> nat
    decreases paths.len() - k,
{
    if k < 0 || k >= paths.len() {
        0
    } else if paths[k] == "-"@ {
        1 + stdin_count(paths, k + 1)
    } else {
        stdin_count(paths, k + 1)
    }
}

/// Whether the inputs are standard input; why they cannot be read.
pub open spec fn stdin_choice(paths: Seq<Seq<char>>) -> Result<bool, Seq<char>> {
    let count = stdin_count(paths, 0);
    if count > 1 {
        Err("standard input ('-') may only be specified once"@)
    } else if count == 1 && paths.len() > 1 {
        Err("standard input ('-') cannot be combined with other inputs"@)
    } else {
        Ok(count == 1)
    }
}

/// Whether the inputs are standard input.
pub fn reads_stdin(paths: &Vec<String>) -> (r: Result<bool, String>)
    ensures
        match stdin_choice(collections::string_texts(paths@)) {
            Ok(stdin) => r == Ok::<bool, String>(stdin),
            Err(fault) => r matches Err(message) && message@ == fault,
        },
{
    let ghost all = collections::string_texts(paths@);
    let mut count: usize = 0;
    let mut k: usize = 0;
    while k < paths.len()
        invariant
            k <= paths@.len(),
            count <= k,
            all == collections::string_texts(paths@),
            count + stdin_count(all, k as int) == stdin_count(all, 0),
        decreases paths@.len() - k,
    {
        assert(all[k as int] == paths@[k as int]@);
        if same_str(paths[k].as_str(), "-") {
            count = count + 1;
        }
        k += 1;
    }
    if count > 1 {
        return Err("standard input ('-') may only be specified once".to_owned());
    }
    if count == 1 && paths.len() > 1 {
        return Err("standard input ('-') cannot be combined with other inputs".to_owned());
    }
    Ok(count == 1)
}

/// What a path is.
#[derive(Clone, Copy, Debug, Eq, PartialEq, Structural)]
pub enum InputKind {
    SymbolicLink,
    Directory,
    File,
    Other,
}

/// What is done with a path.
#[derive(Clone, Copy, Debug, Eq, PartialEq, Structural)]
pub enum InputStep {
    /// It is left out.
    Skip,
    /// The files below it are looked at.
    Walk,
    /// It is read.
    Take,
}

/// What is done with a path that was given.
pub open spec fn given_step(path: Seq<char>, excluded: bool, kind: InputKind) -> Result<
    InputStep,
    Seq<char>,
> {
    if excluded {
        Ok(InputStep::Skip)
    } else {
        match kind {
            InputKind::SymbolicLink => Err(
                ""@ + path + " is a symbolic link; refusing to process it"@,
            ),
            InputKind::Directory => Ok(InputStep::Walk),
            InputKind::File => Ok(InputStep::Take),
            InputKind::Other => Err(""@ + path + " is not a regular file or directory"@),
        }
    }
}

/// Decides on a path that was given.
pub fn accept_input(path: &str, excluded: bool, kind: InputKind) -> (r: Result<InputStep, String>)
    ensures
        match given_step(path@, excluded, kind) {
            Ok(step) => r == Ok::<InputStep, String>(step),
            Err(fault) => r matches Err(message) && message@ == fault,
        },
{
    if excluded {
        return Ok(InputStep::Skip);
    }
    let name = chars_of(path);
    match kind {
        InputKind::SymbolicLink => {
            let text = phrase("", name.as_slice(), " is a symbolic link; refusing to process it");
            Err(string_of(text.as_slice()))
        },
        InputKind::Directory => Ok(InputStep::Walk),
        InputKind::File => Ok(InputStep::Take),
        InputKind::Other => {
            let text = phrase("", name.as_slice(), " is not a regular file or directory");
            Err(string_of(text.as_slice()))
        },
    }
}

/// Decides on an entry of a directory below `root`: links are not followed,
/// and of the files only metadata is taken. `configured` are those of the
/// [`crate::build_layers::configuration_directories`] above it that hold a
/// file `layer.conf`.
pub fn accept_entry(
    path: &str,
    root: &str,
    excluded: bool,
    kind: InputKind,
    configured: &Vec<String>,
) -> (r: InputStep)
    ensures
        r == (if excluded {
            InputStep::Skip
        } else if kind == InputKind::Directory {
            InputStep::Walk
        } else if kind == InputKind::File && build_layers::input_metadata(
            path@,
            root@,
            collections::string_texts(configured@),
        ) {
            InputStep::Take
        } else {
            InputStep::Skip
        }),
{
    if excluded {
        InputStep::Skip
    } else if kind == InputKind::Directory {
        InputStep::Walk
    } else if kind == InputKind::File && is_bitbake_file(path, root, configured) {
        InputStep::Take
    } else {
        InputStep::Skip
    }
}

// ---------------------------------------------------------------------------
// Formatting
// ---------------------------------------------------------------------------
/// What a formatting command does with its results.
#[derive(Clone, Copy, Debug, Eq, PartialEq, Structural)]
pub enum FormatMode {
    Print,
    Check,
    Diff,
    Write,
}

/// Why a formatting command cannot run on `count` inputs.
pub open spec fn format_misuse(mode: FormatMode, count: nat, stdin: bool) -> Option<Seq<char>> {
    if mode == FormatMode::Print && count != 1 {
        Some(
            "formatting to standard output requires exactly one input; use --check, --diff, or --write for multiple inputs"@,
        )
    } else if mode == FormatMode::Write && stdin {
        Some("--write cannot be used with standard input"@)
    } else {
        None
    }
}

/// Checks that a formatting command can run on `count` inputs.
pub fn check_format_mode(mode: FormatMode, count: usize, stdin: bool) -> (r: Result<(), String>)
    ensures
        match format_misuse(mode, count as nat, stdin) {
            Some(fault) => r matches Err(message) && message@ == fault,
            None => r is Ok,
        },
{
    if mode == FormatMode::Print && count != 1 {
        return Err(
            "formatting to standard output requires exactly one input; use --check, --diff, or --write for multiple inputs".to_owned(),
        );
    }
    if mode == FormatMode::Write && stdin {
        return Err("--write cannot be used with standard input".to_owned());
    }
    Ok(())
}

/// What is said of a text that cannot be formatted or linted: `action` says
/// which.
pub open spec fn unusable_text(
    action: Seq<char>,
    label: Seq<char>,
    source: Seq<char>,
    at: int,
    fault: ParseFault,
) -> Seq<char> {
    "could not "@ + action + " "@ + label + ": "@ + ("line "@ + numbers::decimal(
        (text::newline_count(source.take(at)) + 1) as nat,
    ) + ": "@ + tree::fault_message(fault))
}

/// What is said of a text that cannot be formatted or linted.
pub fn describe_unusable(action: &str, label: &str, error: &FormatError) -> (r: String)
    ensures
        r@ == "could not "@ + action@ + " "@ + label@ + ": "@ + ("line "@ + numbers::decimal(
            error.line_number() as nat,
        ) + ": "@ + error.text()),
{
    let mut text = long_phrase(
        "could not ",
        chars_of(action).as_slice(),
        " ",
        chars_of(label).as_slice(),
        ": ",
    );
    append_chars(&mut text, chars_of(error.to_string().as_str()).as_slice());
    string_of(text.as_slice())
}

/// Formats a text that was read from `label`.
pub fn format_input(label: &str, path: Option<String>, original: String, options: &FormatOptions) -> (r:
    Result<FormattedInput, String>)
    requires
        text::byte_len(original@) < usize::MAX,
    ensures
        match syntax::nodes_of(original@) {
            Ok(_) => r matches Ok(input) && input.label@ == label@ && input.path == path
                && input.original == original && input.formatted@ == formatter::formatted(
                original@,
                *options,
            ),
            Err((at, fault)) => r matches Err(message) && message@ == unusable_text(
                "format"@,
                label@,
                original@,
                at,
                fault,
            ),
        },
{
    match format_with_options(original.as_str(), options) {
        Ok(formatted) => Ok(FormattedInput { label: label.to_owned(), path, original, formatted }),
        Err(error) => Err(describe_unusable("format", label, &error)),
    }
}

/// A source that a command was asked to read: its text, or why there is none.
#[derive(Debug, Eq, PartialEq)]
pub struct ReadInput {
    pub label: String,
    pub path: Option<String>,
    pub text: Result<String, String>,
}

/// The texts are not too long.
pub open spec fn inputs_fit(inputs: Seq<ReadInput>) -> bool {
    forall|k: int|
        0 <= k < inputs.len() ==> ((#[trigger] inputs[k]).text matches Ok(text) ==> text::byte_len(
            text@,
        ) < usize::MAX)
}

/// Why an input cannot be formatted.
pub open spec fn format_fault(input: ReadInput) -> Option<Seq<char>> {
    match input.text {
        Ok(text) => match syntax::nodes_of(text@) {
            Ok(_) => None,
            Err((at, fault)) => Some(unusable_text("format"@, input.label@, text@, at, fault)),
        },
        Err(message) => Some(message@),
    }
}

/// Why those of `inputs[k..]` cannot be formatted that cannot.
pub open spec fn format_faults(inputs: Seq<ReadInput>, k: int) -> Seq<Seq<char>>
    decreases inputs.len() - k,
{
    if k < 0 || k >= inputs.len() {
        Seq::empty()
    } else {
        match format_fault(inputs[k]) {
            Some(fault) => seq![fault] + format_faults(inputs, k + 1),
            None => format_faults(inputs, k + 1),
        }
    }
}

/// What formatting makes of an input.
pub open spec fn is_formatted(done: FormattedInput, input: ReadInput, options: FormatOptions) -> bool {
    &&& input.text matches Ok(text) && done.original@ == text@ && done.formatted@
        == formatter::formatted(text@, options)
    &&& done.label@ == input.label@
    &&& collections::optional_text(done.path) == collections::optional_text(input.path)
}

/// Formats all inputs, or says of each that cannot be formatted why: one input
/// that cannot keeps the others from being formatted.
pub fn format_inputs(inputs: &Vec<ReadInput>, options: &FormatOptions) -> (r: Result<
    Vec<FormattedInput>,
    Vec<String>,
>)
    requires
        inputs_fit(inputs@),
    ensures
        match r {
            Ok(done) => format_faults(inputs@, 0).len() == 0 && done@.len() == inputs@.len() && (
            forall|k: int|
                0 <= k < done@.len() ==> is_formatted(#[trigger] done@[k], inputs@[k], *options)),
            Err(messages) => messages@.len() > 0 && collections::string_texts(messages@)
                == format_faults(inputs@, 0),
        },
{
    let ghost goal = format_faults(inputs@, 0);
    let mut done: Vec<FormattedInput> = Vec::new();
    let mut messages: Vec<String> = Vec::new();
    let mut k: usize = 0;
    assert(collections::string_texts(messages@) + goal =~= goal);
    while k < inputs.len()
        invariant
            k <= inputs@.len(),
            inputs_fit(inputs@),
            collections::string_texts(messages@) + format_faults(inputs@, k as int) == goal,
            messages@.len() == 0 ==> done@.len() == k,
            messages@.len() == 0 ==> forall|j: int|
                0 <= j < done@.len() ==> is_formatted(#[trigger] done@[j], inputs@[j], *options),
        decreases inputs@.len() - k,
    {
        let input = &inputs[k];
        let ghost before = collections::string_texts(messages@);
        let ghost rest = format_faults(inputs@, k + 1);
        let result = match &input.text {
            Ok(text) => format_input(
                input.label.as_str(),
                copy_optional(&input.path),
                text.clone(),
                options,
            ),
            Err(message) => Err(message.clone()),
        };
        match result {
            Ok(next) => {
                assert(is_formatted(next, inputs@[k as int], *options));
                done.push(next);
            },
            Err(message) => {
                let ghost x = message@;
                assert(format_fault(inputs@[k as int]) == Some(x));
                push_text(&mut messages, message);
                assert(before + (seq![x] + rest) =~= before.push(x) + rest);
            },
        }
        k += 1;
    }
    assert(collections::string_texts(messages@) =~= goal);
    if messages.len() > 0 {
        Err(messages)
    } else {
        Ok(done)
    }
}

/// The lines for those of `inputs[k..]` that change.
pub open spec fn changed_lines(word: Seq<char>, inputs: Seq<FormattedInput>, k: int) -> Seq<
    Seq<char>,
>
    decreases inputs.len() - k,
{
    if k < 0 || k >= inputs.len() {
        Seq::empty()
    } else if inputs[k].original@ == inputs[k].formatted@ {
        changed_lines(word, inputs, k + 1)
    } else {
        seq![word + inputs[k].label@ + ""@] + changed_lines(word, inputs, k + 1)
    }
}

/// A line for each input that changes: `word` comes before its label.
pub fn list_changes(word: &str, inputs: &Vec<FormattedInput>) -> (r: Vec<String>)
    ensures
        collections::string_texts(r@) == changed_lines(word@, inputs@, 0),
{
    let ghost goal = changed_lines(word@, inputs@, 0);
    let mut out: Vec<String> = Vec::new();
    let mut k: usize = 0;
    assert(collections::string_texts(out@) + goal =~= goal);
    while k < inputs.len()
        invariant
            k <= inputs@.len(),
            collections::string_texts(out@) + changed_lines(word@, inputs@, k as int) == goal,
        decreases inputs@.len() - k,
    {
        if !same_str(inputs[k].original.as_str(), inputs[k].formatted.as_str()) {
            let ghost before = collections::string_texts(out@);
            let line = phrase(word, chars_of(inputs[k].label.as_str()).as_slice(), "");
            let ghost added = line@;
            push_text(&mut out, string_of(line.as_slice()));
            proof {
                let rest = changed_lines(word@, inputs@, k + 1);
                assert(before + (seq![added] + rest) =~= before.push(added) + rest);
            }
        }
        k += 1;
    }
    assert(collections::string_texts(out@) + Seq::<Seq<char>>::empty() =~= collections::string_texts(out@));
    out
}

/// The lines and the exit code of a command that checks whether inputs are
/// formatted.
pub fn check_formatted_inputs(inputs: &Vec<FormattedInput>) -> (r: (Vec<String>, i32))
    ensures
        collections::string_texts(r.0@) == changed_lines("would reformat: "@, inputs@, 0),
        r.1 == (if r.0@.len() > 0 {
            EXIT_DIFFERENCES
        } else {
            0
        }),
{
    let lines = list_changes("would reformat: ", inputs);
    let code = if lines.len() > 0 {
        EXIT_DIFFERENCES
    } else {
        0
    };
    (lines, code)
}

/// The writes for those of `inputs[k..]` that have a path.
pub open spec fn writes_from(inputs: Seq<FormattedInput>, k: int) -> Seq<RequestView>
    decreases inputs.len() - k,
{
    if k < 0 || k >= inputs.len() {
        Seq::empty()
    } else {
        match inputs[k].path {
            Some(path) => seq![
                RequestView {
                    path: path@,
                    original: inputs[k].original@,
                    replacement: inputs[k].formatted@,
                },
            ] + writes_from(inputs, k + 1),
            None => writes_from(inputs, k + 1),
        }
    }
}

/// The writes that put the formatted texts in place.
pub fn plan_writes(inputs: &Vec<FormattedInput>) -> (r: Vec<WriteRequest>)
    ensures
        transaction::request_views(r@) == writes_from(inputs@, 0),
{
    let ghost goal = writes_from(inputs@, 0);
    let mut out: Vec<WriteRequest> = Vec::new();
    let mut k: usize = 0;
    assert(transaction::request_views(out@) + goal =~= goal);
    while k < inputs.len()
        invariant
            k <= inputs@.len(),
            transaction::request_views(out@) + writes_from(inputs@, k as int) == goal,
        decreases inputs@.len() - k,
    {
        if let Some(path) = &inputs[k].path {
            let ghost before = transaction::request_views(out@);
            let request = WriteRequest {
                path: path.clone(),
                original: inputs[k].original.clone(),
                replacement: inputs[k].formatted.clone(),
            };
            let ghost added = request@;
            out.push(request);
            proof {
                let rest = writes_from(inputs@, k + 1);
                assert(transaction::request_views(out@) =~= before.push(added));
                assert(before + (seq![added] + rest) =~= before.push(added) + rest);
            }
        }
        k += 1;
    }
    assert(transaction::request_views(out@) + Seq::<RequestView>::empty() =~= transaction::request_views(out@));
    out
}

// ---------------------------------------------------------------------------
// Differences
// ---------------------------------------------------------------------------
/// The unified diff of two texts under two labels.
pub uninterp spec fn unified_diff(
    old_text: Seq<char>,
    new_text: Seq<char>,
    old_label: Seq<char>,
    new_label: Seq<char>,
) -> Seq<char>;

/// `similar::TextDiff::from_lines` with its unified diff and its header: a
/// text that depends on the two texts and the two labels alone.
#[verifier::external_body]
fn diff_lines(old_text: &str, new_text: &str, old_label: &str, new_label: &str) -> (r: String)
    ensures
        r@ == unified_diff(old_text@, new_text@, old_label@, new_label@),
{
    similar::TextDiff::from_lines(old_text, new_text).unified_diff().header(
        old_label,
        new_label,
    ).to_string()
}

/// The diff that is printed for an input; none where it does not change.
pub open spec fn printed_diff(i: FormattedInput) -> Option<Seq<char>> {
    if i.original@ == i.formatted@ {
        None
    } else {
        Some(
            unified_diff(
                i.original@,
                i.formatted@,
                "a/"@ + i.label@ + ""@,
                "b/"@ + i.label@ + ""@,
            ),
        )
    }
}

/// The diff that is printed for an input; none where it does not change.
pub fn diff_input(input: &FormattedInput) -> (r: Option<String>)
    ensures
        collections::optional_text(r) == printed_diff(*input),
{
    if same_str(input.original.as_str(), input.formatted.as_str()) {
        return None;
    }
    let label = chars_of(input.label.as_str());
    let old_label = string_of(phrase("a/", label.as_slice(), "").as_slice());
    let new_label = string_of(phrase("b/", label.as_slice(), "").as_slice());
    Some(
        diff_lines(
            input.original.as_str(),
            input.formatted.as_str(),
            old_label.as_str(),
            new_label.as_str(),
        ),
    )
}

} // verus!
