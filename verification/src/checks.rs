//! The lint rules that one file's text decides.
use crate::collections;
use crate::findings;
use crate::numbers;
use crate::operator;
use crate::scanner;
use crate::statements;
use crate::syntax;
use crate::text;
use crate::values;
use crate::collections::has_text;
use crate::collections::push_text;
use crate::findings::EditView;
use crate::findings::FindingView;
use crate::findings::Report;
use crate::numbers::decimal_chars;
use crate::operator::AssignmentOperator;
use crate::rules::RULE_AUTOREV;
use crate::rules::RULE_DUPLICATE_ASSIGNMENT;
use crate::rules::RULE_DUPLICATE_FUNCTION;
use crate::rules::RULE_DUPLICATE_INHERIT;
use crate::rules::RULE_EMPTY_DIRECTIVE;
use crate::rules::RULE_FILE_PATHS_IMMEDIATE;
use crate::rules::RULE_FINAL_NEWLINE;
use crate::rules::RULE_GIT_URI_PROTOCOL;
use crate::rules::RULE_PYTHON_INDENTATION;
use crate::rules::RULE_PYTHON_SYNTAX;
use crate::rules::RULE_SHELL_SYNTAX;
use crate::rules::RULE_SUMMARY_LENGTH;
use crate::rules::RULE_TRAILING_WHITESPACE;
use crate::scanner::comment_start;
use crate::statements::AssignmentStatement;
use crate::statements::AssignmentView;
use crate::statements::DirectiveStatement;
use crate::statements::DirectiveView;
use crate::statements::Statement;
use crate::statements::StatementView;
use crate::syntax::DirectiveKeyword;
use crate::text::CharClass;
use crate::text::append_chars;
use crate::text::append_str;
use crate::text::char_index;
use crate::text::chars_of;
use crate::text::contains_char;
use crate::text::copy_chars;
use crate::text::eq_str;
use crate::text::find_str;
use crate::text::next_line_end;
use crate::text::split_line_ending;
use crate::text::starts_with;
use crate::text::string_of;
use crate::text::tail_index;
use crate::text::trim;
use crate::tree::TextRange;
use crate::values::is_variable;
use crate::values::lacks_protocol;
use crate::values::simple_quoted_value;
use crate::values::static_words;
use vstd::prelude::*;
use vstd::slice::slice_subrange;

verus! {

// ---------------------------------------------------------------------------
// Words
// ---------------------------------------------------------------------------
/// A word and the position of its first character in the source text.
pub struct PlacedWord {
    pub at: usize,
    pub text: Vec<char>,
}

impl PlacedWord {
    pub open spec fn view(&self) -> (int, Seq<char>) {
        (self.at as int, self.text@)
    }
}

/// The contents of a list of words.
pub open spec fn word_views(words: Seq<PlacedWord>) -> Seq<(int, Seq<char>)> {
    words.map_values(|w: PlacedWord| w@)
}

/// The words at `ranges` of a text that stands at `base`.
pub open spec fn placed(base: int, t: Seq<char>, ranges: Seq<(int, int)>) -> Seq<(int, Seq<char>)> {
    ranges.map_values(|w: (int, int)| (base + w.0, t.subrange(w.0, w.1)))
}

/// The words of an assignment's quoted value that no expression computes.
pub open spec fn assigned_words(a: AssignmentView) -> Seq<(int, Seq<char>)> {
    match values::simple_quoted(a.value) {
        Some((s, e)) => placed(
            a.value_at + s,
            a.value.subrange(s, e),
            values::static_words_of(a.value.subrange(s, e), CharClass::Whitespace, true),
        ),
        None => Seq::empty(),
    }
}

/// The arguments of a directive without a comment.
pub open spec fn argument_code(d: DirectiveView) -> Seq<char> {
    d.arguments.take(scanner::code_end(d.arguments))
}

/// The arguments of a directive that no expression computes.
pub open spec fn argument_words(d: DirectiveView, braces: bool) -> Seq<(int, Seq<char>)> {
    placed(
        d.arguments_at,
        argument_code(d),
        values::static_words_of(argument_code(d), CharClass::Whitespace, braces),
    )
}

/// The words end at or before the position `end`.
pub open spec fn words_before(words: Seq<(int, Seq<char>)>, end: int) -> bool {
    forall|k: int|
        0 <= k < words.len() ==> 0 <= (#[trigger] words[k]).0 && words[k].0 + words[k].1.len()
            <= end
}

fn place_words(base: usize, t: &[char], ranges: &Vec<(usize, usize)>, Ghost(spec): Ghost<
    Seq<(int, int)>,
>) -> (r: Vec<PlacedWord>)
    requires
        base + t@.len() <= usize::MAX,
        text::ranges_match(ranges@, spec),
        text::ranges_inside(ranges@, t@.len() as int),
    ensures
        word_views(r@) == placed(base as int, t@, spec),
        words_before(word_views(r@), base + t@.len()),
{
    let mut out: Vec<PlacedWord> = Vec::new();
    let mut k: usize = 0;
    while k < ranges.len()
        invariant
            k <= ranges@.len(),
            base + t@.len() <= usize::MAX,
            text::ranges_match(ranges@, spec),
            text::ranges_inside(ranges@, t@.len() as int),
            out@.len() == k,
            forall|j: int|
                0 <= j < k ==> (#[trigger] out@[j])@ == placed(base as int, t@, spec)[j]
                    && out@[j]@.0 + out@[j]@.1.len() <= base + t@.len(),
        decreases ranges@.len() - k,
    {
        let (a, b) = ranges[k];
        assert(ranges@[k as int].0 == spec[k as int].0);
        out.push(PlacedWord { at: base + a, text: copy_chars(slice_subrange(t, a, b)) });
        k += 1;
    }
    assert(word_views(out@) =~= placed(base as int, t@, spec));
    out
}

/// The words of an assignment's quoted value that no expression computes.
pub fn value_words(a: &AssignmentStatement) -> (r: Vec<PlacedWord>)
    requires
        a.value_at + a.value@.len() <= usize::MAX,
    ensures
        word_views(r@) == assigned_words(a@),
        words_before(word_views(r@), a.value_at + a.value@.len()),
{
    match simple_quoted_value(a.value.as_slice()) {
        Some((s, e)) => {
            let text = slice_subrange(a.value.as_slice(), s, e);
            let words = static_words(text, CharClass::Whitespace, true);
            place_words(
                a.value_at + s,
                text,
                &words,
                Ghost(values::static_words_of(text@, CharClass::Whitespace, true)),
            )
        },
        None => {
            let out: Vec<PlacedWord> = Vec::new();
            assert(word_views(out@) =~= Seq::empty());
            out
        },
    }
}

/// The arguments of a directive that no expression computes.
pub fn directive_words(d: &DirectiveStatement, braces: bool) -> (r: Vec<PlacedWord>)
    requires
        d.arguments_at + d.arguments@.len() <= usize::MAX,
    ensures
        word_views(r@) == argument_words(d@, braces),
        words_before(word_views(r@), d.arguments_at + d.arguments@.len()),
{
    let end = comment_start(d.arguments.as_slice());
    let code = slice_subrange(d.arguments.as_slice(), 0, end);
    assert(code@ =~= argument_code(d@));
    let words = static_words(code, CharClass::Whitespace, braces);
    place_words(
        d.arguments_at,
        code,
        &words,
        Ghost(values::static_words_of(code@, CharClass::Whitespace, braces)),
    )
}

/// `a`, then `b`, then `c`.
pub fn phrase(a: &str, b: &[char], c: &str) -> (r: Vec<char>)
    ensures
        r@ == a@ + b@ + c@,
{
    let mut out = chars_of(a);
    append_chars(&mut out, b);
    append_str(&mut out, c);
    out
}

/// `a`, `b`, `c`, `d` and `e` in this order.
pub fn long_phrase(a: &str, b: &[char], c: &str, d: &[char], e: &str) -> (r: Vec<char>)
    ensures
        r@ == a@ + b@ + c@ + d@ + e@,
{
    let mut out = phrase(a, b, c);
    append_chars(&mut out, d);
    append_str(&mut out, e);
    out
}

// ---------------------------------------------------------------------------
// Lines
// ---------------------------------------------------------------------------
/// The finding on a line that ends with blanks.
pub open spec fn trailing_finding(from: int, to: int) -> FindingView {
    FindingView {
        rule: RULE_TRAILING_WHITESPACE as nat,
        from,
        to,
        message: "line ends with whitespace"@,
        edit: Some(
            EditView {
                replacement: ""@,
                message: "remove trailing whitespace"@,
                help: "Remove the trailing spaces or tabs from this line."@,
            },
        ),
    }
}

/// The number of characters of a line before the blanks at its end.
pub open spec fn unblanked(line: Seq<char>) -> int {
    text::tail_from(text::line_content(line), CharClass::Indent, text::content_len(line))
}

/// The lines of `t[i..]` that end with blanks.
pub open spec fn trailing_from(t: Seq<char>, i: int) -> Seq<FindingView>
    decreases t.len() - i,
{
    let e = text::line_end(t, i);
    let line = t.subrange(i, e);
    if 0 <= i < e <= t.len() {
        if unblanked(line) != text::content_len(line) {
            seq![trailing_finding(i + unblanked(line), i + text::content_len(line))] + trailing_from(t, e)
        } else {
            trailing_from(t, e)
        }
    } else {
        Seq::empty()
    }
}

/// Reports the lines that end with blanks.
fn check_trailing_whitespace(t: &[char], report: &mut Report)
    requires
        old(report).wf(),
        old(report).limit() == t@.len(),
    ensures
        final(report)@ == old(report)@ + trailing_from(t@, 0),
        final(report).wf(),
        final(report).limit() == old(report).limit(),
{
    let mut i: usize = 0;
    while i < t.len()
        invariant
            i <= t@.len(),
            report.wf(),
            report.limit() == t@.len(),
            report@ + trailing_from(t@, i as int) == old(report)@ + trailing_from(t@, 0),
        decreases t@.len() - i,
    {
        let e = next_line_end(t, i);
        let line = slice_subrange(t, i, e);
        let (content, _) = split_line_ending(line);
        let w = tail_index(content, CharClass::Indent, content.len());
        let ghost rest = trailing_from(t@, e as int);
        if w != content.len() {
            let ghost before = report@;
            report.push_edit(
                RULE_TRAILING_WHITESPACE,
                i + w,
                i + content.len(),
                "line ends with whitespace",
                "",
                "remove trailing whitespace",
                "Remove the trailing spaces or tabs from this line.",
            );
            proof {
                let f = trailing_finding(i + w, i + content@.len());
                assert(before + (seq![f] + rest) =~= before.push(f) + rest);
            }
        }
        i = e;
    }
    assert(report@ + Seq::<FindingView>::empty() =~= report@);
}

/// The finding on a text that does not end with a newline.
pub open spec fn final_newline(t: Seq<char>) -> Seq<FindingView> {
    if t.len() == 0 || t.last() == '\n' {
        Seq::empty()
    } else {
        seq![
            FindingView {
                rule: RULE_FINAL_NEWLINE as nat,
                from: t.len() as int,
                to: t.len() as int,
                message: "file does not end with a newline"@,
                edit: Some(
                    EditView {
                        replacement: "\n"@,
                        message: "append a final newline"@,
                        help: "Append a newline at the end of the file."@,
                    },
                ),
            },
        ]
    }
}

/// Reports a text that does not end with a newline.
fn check_final_newline(t: &[char], report: &mut Report)
    requires
        old(report).wf(),
        old(report).limit() == t@.len(),
    ensures
        final(report)@ == old(report)@ + final_newline(t@),
        final(report).wf(),
        final(report).limit() == old(report).limit(),
{
    if t.len() == 0 || t[t.len() - 1] == '\n' {
        assert(report@ + final_newline(t@) =~= report@);
        return;
    }
    let ghost before = report@;
    report.push_edit(
        RULE_FINAL_NEWLINE,
        t.len(),
        t.len(),
        "file does not end with a newline",
        "\n",
        "append a final newline",
        "Append a newline at the end of the file.",
    );
    assert(report@ =~= before + final_newline(t@));
}

// ---------------------------------------------------------------------------
// Assignments
// ---------------------------------------------------------------------------
/// The number of characters of a `SUMMARY` that are not too many.
pub const SUMMARY_LIMIT: usize = 80;

/// The end of an assignment's name.
pub open spec fn name_end(a: AssignmentView) -> int {
    a.name_at + a.name.len()
}

/// The finding on a `SUMMARY` that is too long.
pub open spec fn summary_findings(a: AssignmentView) -> Seq<FindingView> {
    match values::quoted_text(a.value) {
        Some(summary) => if a.name == "SUMMARY"@ && !summary.contains('\r') && !summary.contains(
            '\n',
        ) && !summary.contains('$') && summary.len() > SUMMARY_LIMIT {
            seq![
                findings::finding(
                    RULE_SUMMARY_LENGTH,
                    a.name_at,
                    name_end(a),
                    "SUMMARY is "@ + numbers::decimal(summary.len()) + " characters; limit it to "@
                        + numbers::decimal(SUMMARY_LIMIT as nat) + ""@,
                ),
            ]
        } else {
            Seq::empty()
        },
        None => Seq::empty(),
    }
}

/// An assignment statement lies in a text of `n` characters.
pub open spec fn assignment_in(a: AssignmentView, n: int) -> bool {
    &&& 0 <= a.name_at <= a.name_at + a.name.len() <= n
    &&& 0 <= a.operator_at <= a.operator_at + operator::operator_chars(a.operator).len() <= n
    &&& 0 <= a.value_at <= a.value_at + a.value.len() <= n
}

fn check_summary(a: &AssignmentStatement, report: &mut Report)
    requires
        old(report).wf(),
        assignment_in(a@, old(report).limit()),
        old(report).limit() <= usize::MAX,
    ensures
        final(report)@ == old(report)@ + summary_findings(a@),
        final(report).wf(),
        final(report).limit() == old(report).limit(),
{
    let ghost before = report@;
    assert(before + Seq::<FindingView>::empty() =~= before);
    if !eq_str(a.name.as_slice(), "SUMMARY") {
        return;
    }
    let (s, e) = match simple_quoted_value(a.value.as_slice()) {
        Some(range) => range,
        None => {
            return;
        },
    };
    let summary = slice_subrange(a.value.as_slice(), s, e);
    if contains_char(summary, '\r') || contains_char(summary, '\n') || contains_char(summary, '$')
        || summary.len() <= SUMMARY_LIMIT {
        return;
    }
    let length = decimal_chars(summary.len() as u64);
    let limit = decimal_chars(SUMMARY_LIMIT as u64);
    let message = long_phrase(
        "SUMMARY is ",
        length.as_slice(),
        " characters; limit it to ",
        limit.as_slice(),
        "",
    );
    report.push(RULE_SUMMARY_LENGTH, a.name_at, a.name_at + a.name.len(), message.as_slice());
    assert(report@ =~= before + summary_findings(a@));
}

/// The finding on a source revision that floats.
pub open spec fn autorev_findings(a: AssignmentView) -> Seq<FindingView> {
    let k = text::find_seq(a.value.take(scanner::code_end(a.value)), "${AUTOREV}"@, 0);
    if values::names_variable(a.name, "SRCREV"@) && k >= 0 {
        seq![
            findings::finding(
                RULE_AUTOREV,
                a.value_at + k,
                a.value_at + k + "${AUTOREV}"@.len(),
                ""@ + a.name
                    + " uses ${AUTOREV}; pin a source revision for reproducible builds"@,
            ),
        ]
    } else {
        Seq::empty()
    }
}

fn check_autorev(a: &AssignmentStatement, report: &mut Report)
    requires
        old(report).wf(),
        assignment_in(a@, old(report).limit()),
        old(report).limit() <= usize::MAX,
    ensures
        final(report)@ == old(report)@ + autorev_findings(a@),
        final(report).wf(),
        final(report).limit() == old(report).limit(),
{
    let ghost before = report@;
    assert(before + Seq::<FindingView>::empty() =~= before);
    if !is_variable(a.name.as_slice(), "SRCREV") {
        return;
    }
    let end = comment_start(a.value.as_slice());
    let code = slice_subrange(a.value.as_slice(), 0, end);
    assert(code@ =~= a.value@.take(scanner::code_end(a.value@)));
    let pattern = chars_of("${AUTOREV}");
    match find_str(code, pattern.as_slice(), 0) {
        Some(k) => {
            let message = phrase(
                "",
                a.name.as_slice(),
                " uses ${AUTOREV}; pin a source revision for reproducible builds",
            );
            report.push(
                RULE_AUTOREV,
                a.value_at + k,
                a.value_at + k + pattern.len(),
                message.as_slice(),
            );
            assert(report@ =~= before + autorev_findings(a@));
        },
        None => {},
    }
}

/// The finding on search paths that are expanded too late.
pub open spec fn file_path_findings(a: AssignmentView) -> Seq<FindingView> {
    if text::has_prefix(a.name, "FILESEXTRAPATHS"@) && a.operator != AssignmentOperator::Immediate {
        seq![
            findings::finding(
                RULE_FILE_PATHS_IMMEDIATE,
                a.operator_at,
                a.operator_at + operator::operator_chars(a.operator).len(),
                ""@ + a.name + " must use ':=' so path expansion happens before parsing"@,
            ),
        ]
    } else {
        Seq::empty()
    }
}

fn check_file_paths(a: &AssignmentStatement, report: &mut Report)
    requires
        old(report).wf(),
        assignment_in(a@, old(report).limit()),
        old(report).limit() <= usize::MAX,
    ensures
        final(report)@ == old(report)@ + file_path_findings(a@),
        final(report).wf(),
        final(report).limit() == old(report).limit(),
{
    let ghost before = report@;
    assert(before + Seq::<FindingView>::empty() =~= before);
    if !starts_with(a.name.as_slice(), "FILESEXTRAPATHS") || a.operator
        == AssignmentOperator::Immediate {
        return;
    }
    let message = phrase(
        "",
        a.name.as_slice(),
        " must use ':=' so path expansion happens before parsing",
    );
    report.push(
        RULE_FILE_PATHS_IMMEDIATE,
        a.operator_at,
        a.operator_at + a.operator.width(),
        message.as_slice(),
    );
    assert(report@ =~= before + file_path_findings(a@));
}

/// The end of a word.
pub open spec fn word_end(w: (int, Seq<char>)) -> int {
    w.0 + w.1.len()
}

/// The findings on the Git addresses among `words[k..]`.
pub open spec fn protocol_from(words: Seq<(int, Seq<char>)>, k: int) -> Seq<FindingView>
    decreases words.len() - k,
{
    if k < 0 || k >= words.len() {
        Seq::empty()
    } else {
        let w = words[k];
        if values::git_uri(w.1) && !values::names_protocol(w.1) {
            seq![
                findings::finding(
                    RULE_GIT_URI_PROTOCOL,
                    w.0,
                    word_end(w),
                    "Git URI '"@ + w.1 + "' does not declare a protocol"@,
                ),
            ] + protocol_from(words, k + 1)
        } else {
            protocol_from(words, k + 1)
        }
    }
}

/// The findings on the Git addresses of an assignment.
pub open spec fn protocol_findings(a: AssignmentView) -> Seq<FindingView> {
    if values::names_variable(a.name, "SRC_URI"@) {
        protocol_from(assigned_words(a), 0)
    } else {
        Seq::empty()
    }
}

fn check_git_uri_protocol(a: &AssignmentStatement, report: &mut Report)
    requires
        old(report).wf(),
        assignment_in(a@, old(report).limit()),
        old(report).limit() <= usize::MAX,
    ensures
        final(report)@ == old(report)@ + protocol_findings(a@),
        final(report).wf(),
        final(report).limit() == old(report).limit(),
{
    if !is_variable(a.name.as_slice(), "SRC_URI") {
        assert(report@ + protocol_findings(a@) =~= report@);
        return;
    }
    let words = value_words(a);
    let ghost all = word_views(words@);
    let mut k: usize = 0;
    while k < words.len()
        invariant
            k <= words@.len(),
            all == word_views(words@),
            words_before(all, report.limit()),
            report.wf(),
            report.limit() == old(report).limit(),
            report.limit() <= usize::MAX,
            report@ + protocol_from(all, k as int) == old(report)@ + protocol_from(all, 0),
        decreases words@.len() - k,
    {
        let w = &words[k];
        assert(all[k as int] == w@);
        let ghost rest = protocol_from(all, k + 1);
        if lacks_protocol(w.text.as_slice()) {
            let ghost before = report@;
            let message = phrase(
                "Git URI '",
                w.text.as_slice(),
                "' does not declare a protocol",
            );
            report.push(RULE_GIT_URI_PROTOCOL, w.at, w.at + w.text.len(), message.as_slice());
            proof {
                let f = report@.last();
                assert(before + (seq![f] + rest) =~= before.push(f) + rest);
            }
        }
        k += 1;
    }
    assert(report@ + Seq::<FindingView>::empty() =~= report@);
}

/// Whether an operator gives a variable its value directly.
pub open spec fn assigns_directly(operator: AssignmentOperator) -> bool {
    operator == AssignmentOperator::Assign || operator == AssignmentOperator::Immediate
}

/// The finding on a variable that the names `seen` already hold.
pub open spec fn repeated_findings(a: AssignmentView, seen: Seq<Seq<char>>) -> Seq<FindingView> {
    if assigns_directly(a.operator) && seen.contains(a.name) {
        seq![
            findings::finding(
                RULE_DUPLICATE_ASSIGNMENT,
                a.name_at,
                name_end(a),
                "variable '"@ + a.name + "' is assigned directly more than once"@,
            ),
        ]
    } else {
        Seq::empty()
    }
}

/// The findings on one assignment after the direct assignments of `seen`.
pub open spec fn assignment_findings(a: AssignmentView, seen: Seq<Seq<char>>) -> Seq<FindingView> {
    summary_findings(a) + autorev_findings(a) + file_path_findings(a) + protocol_findings(a)
        + repeated_findings(a, seen)
}

/// `seen` with `name`.
pub open spec fn with_name(seen: Seq<Seq<char>>, name: Seq<char>) -> Seq<Seq<char>> {
    if seen.contains(name) {
        seen
    } else {
        seen.push(name)
    }
}

/// The findings on the assignments of `s[k..]`.
pub open spec fn assignments_from(
    s: Seq<StatementView>,
    k: int,
    seen: Seq<Seq<char>>,
) -> Seq<FindingView>
    decreases s.len() - k,
{
    if k < 0 || k >= s.len() {
        Seq::empty()
    } else {
        match s[k] {
            StatementView::Assignment(a) => assignment_findings(a, seen) + assignments_from(
                s,
                k + 1,
                if assigns_directly(a.operator) {
                    with_name(seen, a.name)
                } else {
                    seen
                },
            ),
            _ => assignments_from(s, k + 1, seen),
        }
    }
}

/// Reports what is wrong with the assignments.
fn check_assignments(statements: &Vec<Statement>, report: &mut Report, Ghost(source): Ghost<
    Seq<char>,
>)
    requires
        old(report).wf(),
        old(report).limit() == source.len(),
        source.len() <= usize::MAX,
        statements::statements_inside(source, statements::statement_views(statements@)),
    ensures
        final(report)@ == old(report)@ + assignments_from(
            statements::statement_views(statements@),
            0,
            Seq::empty(),
        ),
        final(report).wf(),
        final(report).limit() == old(report).limit(),
{
    let ghost all = statements::statement_views(statements@);
    let ghost goal = old(report)@ + assignments_from(all, 0, Seq::empty());
    let mut seen: Vec<String> = Vec::new();
    let mut k: usize = 0;
    assert(collections::string_texts(seen@) =~= Seq::empty());
    while k < statements.len()
        invariant
            k <= statements@.len(),
            all == statements::statement_views(statements@),
            statements::statements_inside(source, all),
            source.len() <= usize::MAX,
            report.wf(),
            report.limit() == source.len(),
            old(report).limit() == source.len(),
            report@ + assignments_from(all, k as int, collections::string_texts(seen@)) == goal,
        decreases statements@.len() - k,
    {
        assert(all[k as int] == statements@[k as int]@);
        if let Statement::Assignment(a) = &statements[k] {
            let ghost before = report@;
            let ghost names = collections::string_texts(seen@);
            check_summary(a, report);
            check_autorev(a, report);
            check_file_paths(a, report);
            check_git_uri_protocol(a, report);
            let ghost middle = report@;
            if a.operator == AssignmentOperator::Assign || a.operator
                == AssignmentOperator::Immediate {
                let name = string_of(a.name.as_slice());
                if has_text(&seen, name.as_str()) {
                    let message = phrase(
                        "variable '",
                        a.name.as_slice(),
                        "' is assigned directly more than once",
                    );
                    report.push(
                        RULE_DUPLICATE_ASSIGNMENT,
                        a.name_at,
                        a.name_at + a.name.len(),
                        message.as_slice(),
                    );
                    assert(report@ =~= middle + repeated_findings(a@, names));
                } else {
                    push_text(&mut seen, name);
                    assert(report@ =~= middle + repeated_findings(a@, names));
                }
            } else {
                assert(report@ =~= middle + repeated_findings(a@, names));
            }
            proof {
                let rest = assignments_from(all, k + 1, collections::string_texts(seen@));
                assert(report@ =~= before + assignment_findings(a@, names));
                assert(before + (assignment_findings(a@, names) + rest) =~= (before
                    + assignment_findings(a@, names)) + rest);
            }
        }
        k += 1;
    }
    assert(report@ + Seq::<FindingView>::empty() =~= report@);
}

// ---------------------------------------------------------------------------
// Functions and directives
// ---------------------------------------------------------------------------
/// The findings on the functions of `s[k..]` whose names `seen` or an earlier
/// function has.
pub open spec fn functions_from(
    s: Seq<StatementView>,
    k: int,
    seen: Seq<Seq<char>>,
) -> Seq<FindingView>
    decreases s.len() - k,
{
    if k < 0 || k >= s.len() {
        Seq::empty()
    } else {
        match s[k] {
            StatementView::Function(f) => match f.name {
                Some(name) => if seen.contains(name) {
                    seq![
                        findings::finding(
                            RULE_DUPLICATE_FUNCTION,
                            f.name_at,
                            f.name_at + name.len(),
                            "function '"@ + name + "' is declared more than once"@,
                        ),
                    ] + functions_from(s, k + 1, seen)
                } else {
                    functions_from(s, k + 1, seen.push(name))
                },
                None => functions_from(s, k + 1, seen),
            },
            _ => functions_from(s, k + 1, seen),
        }
    }
}

/// Reports the functions that are declared again.
fn check_duplicate_functions(statements: &Vec<Statement>, report: &mut Report, Ghost(source): Ghost<
    Seq<char>,
>)
    requires
        old(report).wf(),
        old(report).limit() == source.len(),
        source.len() <= usize::MAX,
        statements::statements_inside(source, statements::statement_views(statements@)),
    ensures
        final(report)@ == old(report)@ + functions_from(
            statements::statement_views(statements@),
            0,
            Seq::empty(),
        ),
        final(report).wf(),
        final(report).limit() == old(report).limit(),
{
    let ghost all = statements::statement_views(statements@);
    let ghost goal = old(report)@ + functions_from(all, 0, Seq::empty());
    let mut seen: Vec<String> = Vec::new();
    let mut k: usize = 0;
    assert(collections::string_texts(seen@) =~= Seq::empty());
    while k < statements.len()
        invariant
            k <= statements@.len(),
            all == statements::statement_views(statements@),
            statements::statements_inside(source, all),
            source.len() <= usize::MAX,
            report.wf(),
            report.limit() == source.len(),
            old(report).limit() == source.len(),
            report@ + functions_from(all, k as int, collections::string_texts(seen@)) == goal,
        decreases statements@.len() - k,
    {
        assert(all[k as int] == statements@[k as int]@);
        if let Statement::Function(f) = &statements[k] {
            if let Some(chars) = &f.name {
                let name = string_of(chars.as_slice());
                if has_text(&seen, name.as_str()) {
                    let ghost before = report@;
                    let message = phrase(
                        "function '",
                        chars.as_slice(),
                        "' is declared more than once",
                    );
                    assert(statements::statement_inside(source, all[k as int]));
                    report.push(
                        RULE_DUPLICATE_FUNCTION,
                        f.name_at,
                        f.name_at + chars.len(),
                        message.as_slice(),
                    );
                    proof {
                        let rest = functions_from(all, k + 1, collections::string_texts(seen@));
                        let f = report@.last();
                        assert(before + (seq![f] + rest) =~= before.push(f) + rest);
                    }
                } else {
                    push_text(&mut seen, name);
                }
            }
        }
        k += 1;
    }
    assert(report@ + Seq::<FindingView>::empty() =~= report@);
}

/// Whether a directive names other metadata.
pub open spec fn names_metadata(keyword: DirectiveKeyword) -> bool {
    match keyword {
        DirectiveKeyword::Include => true,
        DirectiveKeyword::IncludeAll => true,
        DirectiveKeyword::Require => true,
        DirectiveKeyword::Inherit => true,
        DirectiveKeyword::InheritDefer => true,
        _ => false,
    }
}

/// The findings on the directives of `s[k..]` that name nothing.
pub open spec fn empty_from(s: Seq<StatementView>, k: int) -> Seq<FindingView>
    decreases s.len() - k,
{
    if k < 0 || k >= s.len() {
        Seq::empty()
    } else {
        match s[k] {
            StatementView::Directive(d) => if names_metadata(d.keyword) && text::trimmed(
                argument_code(d),
                CharClass::Whitespace,
            ).len() == 0 {
                seq![
                    findings::finding(
                        RULE_EMPTY_DIRECTIVE,
                        d.at,
                        d.at + syntax::keyword_chars(d.keyword).len(),
                        ""@ + syntax::keyword_chars(d.keyword) + " directive has no target"@,
                    ),
                ] + empty_from(s, k + 1)
            } else {
                empty_from(s, k + 1)
            },
            _ => empty_from(s, k + 1),
        }
    }
}

fn is_metadata_directive(keyword: DirectiveKeyword) -> (r: bool)
    ensures
        r == names_metadata(keyword),
{
    match keyword {
        DirectiveKeyword::Include => true,
        DirectiveKeyword::IncludeAll => true,
        DirectiveKeyword::Require => true,
        DirectiveKeyword::Inherit => true,
        DirectiveKeyword::InheritDefer => true,
        _ => false,
    }
}

/// Reports the directives that name nothing.
fn check_empty_directives(statements: &Vec<Statement>, report: &mut Report, Ghost(source): Ghost<
    Seq<char>,
>)
    requires
        old(report).wf(),
        old(report).limit() == source.len(),
        source.len() <= usize::MAX,
        statements::statements_inside(source, statements::statement_views(statements@)),
    ensures
        final(report)@ == old(report)@ + empty_from(statements::statement_views(statements@), 0),
        final(report).wf(),
        final(report).limit() == old(report).limit(),
{
    let ghost all = statements::statement_views(statements@);
    let ghost goal = old(report)@ + empty_from(all, 0);
    let mut k: usize = 0;
    while k < statements.len()
        invariant
            k <= statements@.len(),
            all == statements::statement_views(statements@),
            statements::statements_inside(source, all),
            source.len() <= usize::MAX,
            report.wf(),
            report.limit() == source.len(),
            old(report).limit() == source.len(),
            report@ + empty_from(all, k as int) == goal,
        decreases statements@.len() - k,
    {
        assert(all[k as int] == statements@[k as int]@);
        if let Statement::Directive(d) = &statements[k] {
            let end = comment_start(d.arguments.as_slice());
            let code = slice_subrange(d.arguments.as_slice(), 0, end);
            assert(code@ =~= argument_code(d@));
            if is_metadata_directive(d.keyword) && trim(code, CharClass::Whitespace).len() == 0 {
                let ghost before = report@;
                let word = chars_of(d.keyword.lexeme());
                let message = phrase("", word.as_slice(), " directive has no target");
                assert(statements::statement_inside(source, all[k as int]));
                report.push(RULE_EMPTY_DIRECTIVE, d.at, d.at + word.len(), message.as_slice());
                proof {
                    let rest = empty_from(all, k + 1);
                    let f = report@.last();
                    assert(before + (seq![f] + rest) =~= before.push(f) + rest);
                }
            }
        }
        k += 1;
    }
    assert(report@ + Seq::<FindingView>::empty() =~= report@);
}

pub open spec fn inherits(keyword: DirectiveKeyword) -> bool {
    keyword == DirectiveKeyword::Inherit || keyword == DirectiveKeyword::InheritDefer
}

/// The findings on the classes `words[k..]` that `seen` or an earlier word
/// names.
pub open spec fn classes_from(
    words: Seq<(int, Seq<char>)>,
    k: int,
    seen: Seq<Seq<char>>,
) -> Seq<FindingView>
    decreases words.len() - k,
{
    if k < 0 || k >= words.len() {
        Seq::empty()
    } else if seen.contains(words[k].1) {
        seq![
            findings::finding(
                RULE_DUPLICATE_INHERIT,
                words[k].0,
                word_end(words[k]),
                "class '"@ + words[k].1 + "' is inherited more than once"@,
            ),
        ] + classes_from(words, k + 1, seen)
    } else {
        classes_from(words, k + 1, seen.push(words[k].1))
    }
}

/// `seen` with the texts of `words[k..]`.
pub open spec fn with_words(seen: Seq<Seq<char>>, words: Seq<(int, Seq<char>)>, k: int) -> Seq<
    Seq<char>,
>
    decreases words.len() - k,
{
    if k < 0 || k >= words.len() {
        seen
    } else {
        with_words(with_name(seen, words[k].1), words, k + 1)
    }
}

/// The findings on the classes that the directives of `s[k..]` inherit again.
pub open spec fn inherits_from(
    s: Seq<StatementView>,
    k: int,
    seen: Seq<Seq<char>>,
) -> Seq<FindingView>
    decreases s.len() - k,
{
    if k < 0 || k >= s.len() {
        Seq::empty()
    } else {
        match s[k] {
            StatementView::Directive(d) => if inherits(d.keyword) {
                let words = argument_words(d, false);
                classes_from(words, 0, seen) + inherits_from(s, k + 1, with_words(seen, words, 0))
            } else {
                inherits_from(s, k + 1, seen)
            },
            _ => inherits_from(s, k + 1, seen),
        }
    }
}

fn check_inherited(words: &Vec<PlacedWord>, seen: &mut Vec<String>, report: &mut Report)
    requires
        old(report).wf(),
        old(report).limit() <= usize::MAX,
        words_before(word_views(words@), old(report).limit()),
    ensures
        final(report)@ == old(report)@ + classes_from(
            word_views(words@),
            0,
            collections::string_texts(old(seen)@),
        ),
        collections::string_texts(final(seen)@) == with_words(collections::string_texts(old(seen)@), word_views(words@), 0),
        final(report).wf(),
        final(report).limit() == old(report).limit(),
{
    let ghost all = word_views(words@);
    let ghost goal = report@ + classes_from(all, 0, collections::string_texts(seen@));
    let ghost end = with_words(collections::string_texts(seen@), all, 0);
    let mut k: usize = 0;
    while k < words.len()
        invariant
            k <= words@.len(),
            all == word_views(words@),
            words_before(all, report.limit()),
            report.wf(),
            report.limit() == old(report).limit(),
            report.limit() <= usize::MAX,
            report@ + classes_from(all, k as int, collections::string_texts(seen@)) == goal,
            with_words(collections::string_texts(seen@), all, k as int) == end,
        decreases words@.len() - k,
    {
        let w = &words[k];
        assert(all[k as int] == w@);
        let class = string_of(w.text.as_slice());
        if has_text(seen, class.as_str()) {
            let ghost before = report@;
            let message = phrase("class '", w.text.as_slice(), "' is inherited more than once");
            report.push(RULE_DUPLICATE_INHERIT, w.at, w.at + w.text.len(), message.as_slice());
            proof {
                let rest = classes_from(all, k + 1, collections::string_texts(seen@));
                let f = report@.last();
                assert(before + (seq![f] + rest) =~= before.push(f) + rest);
            }
        } else {
            push_text(seen, class);
        }
        k += 1;
    }
    assert(report@ + Seq::<FindingView>::empty() =~= report@);
}

/// Reports the classes that are inherited again.
fn check_duplicate_inherits(statements: &Vec<Statement>, report: &mut Report, Ghost(source): Ghost<
    Seq<char>,
>)
    requires
        old(report).wf(),
        old(report).limit() == source.len(),
        source.len() <= usize::MAX,
        statements::statements_inside(source, statements::statement_views(statements@)),
    ensures
        final(report)@ == old(report)@ + inherits_from(
            statements::statement_views(statements@),
            0,
            Seq::empty(),
        ),
        final(report).wf(),
        final(report).limit() == old(report).limit(),
{
    let ghost all = statements::statement_views(statements@);
    let ghost goal = old(report)@ + inherits_from(all, 0, Seq::empty());
    let mut seen: Vec<String> = Vec::new();
    let mut k: usize = 0;
    assert(collections::string_texts(seen@) =~= Seq::empty());
    while k < statements.len()
        invariant
            k <= statements@.len(),
            all == statements::statement_views(statements@),
            statements::statements_inside(source, all),
            source.len() <= usize::MAX,
            report.wf(),
            report.limit() == source.len(),
            old(report).limit() == source.len(),
            report@ + inherits_from(all, k as int, collections::string_texts(seen@)) == goal,
        decreases statements@.len() - k,
    {
        assert(all[k as int] == statements@[k as int]@);
        if let Statement::Directive(d) = &statements[k] {
            if d.keyword == DirectiveKeyword::Inherit || d.keyword
                == DirectiveKeyword::InheritDefer {
                assert(statements::statement_inside(source, all[k as int]));
                let words = directive_words(d, false);
                let ghost before = report@;
                let ghost names = collections::string_texts(seen@);
                check_inherited(&words, &mut seen, report);
                proof {
                    let found = classes_from(word_views(words@), 0, names);
                    let rest = inherits_from(all, k + 1, collections::string_texts(seen@));
                    assert(before + (found + rest) =~= (before + found) + rest);
                }
            }
        }
        k += 1;
    }
    assert(report@ + Seq::<FindingView>::empty() =~= report@);
}

// ---------------------------------------------------------------------------
// Bodies
// ---------------------------------------------------------------------------
/// What an analysis of a function body found.
#[derive(Clone, Copy, Debug, Eq, PartialEq, Structural)]
pub enum BodyDiagnosticKind {
    ShellSyntax,
    PythonSyntax,
    PythonIndentation,
}

/// The rule that reports a kind of body diagnostic.
pub open spec fn body_rule(kind: BodyDiagnosticKind) -> usize {
    match kind {
        BodyDiagnosticKind::ShellSyntax => RULE_SHELL_SYNTAX,
        BodyDiagnosticKind::PythonSyntax => RULE_PYTHON_SYNTAX,
        BodyDiagnosticKind::PythonIndentation => RULE_PYTHON_INDENTATION,
    }
}

/// A diagnostic of a function body, by bytes of the body.
#[derive(Clone, Debug, Eq, PartialEq)]
pub struct BodyDiagnostic {
    kind: BodyDiagnosticKind,
    range: TextRange,
    message: String,
}

impl BodyDiagnostic {
    pub closed spec fn spec_kind(&self) -> BodyDiagnosticKind {
        self.kind
    }

    pub closed spec fn spec_range(&self) -> TextRange {
        self.range
    }

    pub closed spec fn text(&self) -> Seq<char> {
        self.message@
    }

    /// A diagnostic of the bytes `range` of a body.
    pub fn new(kind: BodyDiagnosticKind, range: TextRange, message: &str) -> (r: BodyDiagnostic)
        ensures
            r.spec_kind() == kind,
            r.spec_range() == range,
            r.text() == message@,
    {
        BodyDiagnostic { kind, range, message: message.to_owned() }
    }

    /// What was found.
    pub fn kind(&self) -> (r: BodyDiagnosticKind)
        ensures
            r == self.spec_kind(),
    {
        self.kind
    }

    /// Where it was found, by bytes of the body.
    pub fn range(&self) -> (r: TextRange)
        ensures
            r == self.spec_range(),
    {
        self.range
    }

    /// What is wrong.
    pub fn message(&self) -> (r: &str)
        ensures
            r@ == self.text(),
    {
        self.message.as_str()
    }
}

/// The body of a function or a Python definition.
pub open spec fn body_of(s: StatementView) -> Option<(int, int)> {
    match s {
        StatementView::Function(f) => Some((f.body_at, f.body_end)),
        StatementView::Definition { body_at, body_end } => Some((body_at, body_end)),
        _ => None,
    }
}

/// The finding that reports a body diagnostic of the body at `at`.
pub open spec fn body_finding(body: Seq<char>, at: int, d: BodyDiagnostic) -> FindingView {
    findings::finding(
        body_rule(d.spec_kind()),
        at + text::chars_before(body, d.spec_range().from()),
        at + text::chars_before(body, d.spec_range().to()),
        d.text(),
    )
}

/// The findings that report the diagnostics `items[k..]` of one body.
pub open spec fn body_findings_from(
    body: Seq<char>,
    at: int,
    items: Seq<BodyDiagnostic>,
    k: int,
) -> Seq<FindingView>
    decreases items.len() - k,
{
    if k < 0 || k >= items.len() {
        Seq::empty()
    } else {
        seq![body_finding(body, at, items[k])] + body_findings_from(body, at, items, k + 1)
    }
}

/// The findings that report the diagnostics of the bodies of `s[k..]`; those
/// of the statement `s[k]` are `bodies[k]`.
pub open spec fn bodies_from(
    source: Seq<char>,
    s: Seq<StatementView>,
    bodies: Seq<Vec<BodyDiagnostic>>,
    k: int,
) -> Seq<FindingView>
    decreases s.len() - k,
{
    if k < 0 || k >= s.len() || k >= bodies.len() {
        Seq::empty()
    } else {
        match body_of(s[k]) {
            Some((a, b)) => body_findings_from(source.subrange(a, b), a, bodies[k]@, 0)
                + bodies_from(source, s, bodies, k + 1),
            None => bodies_from(source, s, bodies, k + 1),
        }
    }
}

fn check_body(body: &[char], at: usize, items: &Vec<BodyDiagnostic>, report: &mut Report)
    requires
        old(report).wf(),
        at + body@.len() <= old(report).limit(),
        old(report).limit() <= usize::MAX,
    ensures
        final(report)@ == old(report)@ + body_findings_from(body@, at as int, items@, 0),
        final(report).wf(),
        final(report).limit() == old(report).limit(),
{
    let ghost goal = report@ + body_findings_from(body@, at as int, items@, 0);
    let mut k: usize = 0;
    while k < items.len()
        invariant
            k <= items@.len(),
            at + body@.len() <= report.limit(),
            report.limit() <= usize::MAX,
            report.wf(),
            report.limit() == old(report).limit(),
            report@ + body_findings_from(body@, at as int, items@, k as int) == goal,
        decreases items@.len() - k,
    {
        let item = &items[k];
        let rule = match item.kind() {
            BodyDiagnosticKind::ShellSyntax => RULE_SHELL_SYNTAX,
            BodyDiagnosticKind::PythonSyntax => RULE_PYTHON_SYNTAX,
            BodyDiagnosticKind::PythonIndentation => RULE_PYTHON_INDENTATION,
        };
        let from = char_index(body, item.range().start());
        let to = char_index(body, item.range().end());
        let message = chars_of(item.message());
        let ghost before = report@;
        report.push(rule, at + from, at + to, message.as_slice());
        proof {
            let rest = body_findings_from(body@, at as int, items@, k + 1);
            let f = report@.last();
            assert(f == body_finding(body@, at as int, items@[k as int]));
            assert(before + (seq![f] + rest) =~= before.push(f) + rest);
        }
        k += 1;
    }
    assert(report@ + Seq::<FindingView>::empty() =~= report@);
}

/// Reports the diagnostics of function bodies.
fn check_body_diagnostics(
    source: &[char],
    statements: &Vec<Statement>,
    bodies: &Vec<Vec<BodyDiagnostic>>,
    report: &mut Report,
)
    requires
        old(report).wf(),
        old(report).limit() == source@.len(),
        statements::statements_inside(source@, statements::statement_views(statements@)),
    ensures
        final(report)@ == old(report)@ + bodies_from(
            source@,
            statements::statement_views(statements@),
            bodies@,
            0,
        ),
        final(report).wf(),
        final(report).limit() == old(report).limit(),
{
    let ghost all = statements::statement_views(statements@);
    let ghost goal = report@ + bodies_from(source@, all, bodies@, 0);
    let size = source.len();
    let mut k: usize = 0;
    while k < statements.len() && k < bodies.len()
        invariant
            k <= statements@.len(),
            all == statements::statement_views(statements@),
            statements::statements_inside(source@, all),
            report.wf(),
            source@.len() == size,
            report.limit() == source@.len(),
            old(report).limit() == source@.len(),
            report@ + bodies_from(source@, all, bodies@, k as int) == goal,
        decreases statements@.len() - k,
    {
        assert(all[k as int] == statements@[k as int]@);
        assert(statements::statement_inside(source@, all[k as int]));
        let ghost before = report@;
        let range = match &statements[k] {
            Statement::Function(f) => Some((f.body_at, f.body_end)),
            Statement::Definition { body_at, body_end } => Some((*body_at, *body_end)),
            _ => None,
        };
        match range {
            Some((a, b)) => {
                let body = slice_subrange(source, a, b);
                check_body(body, a, &bodies[k], report);
                proof {
                    let found = body_findings_from(body@, a as int, bodies@[k as int]@, 0);
                    let rest = bodies_from(source@, all, bodies@, k + 1);
                    assert(before + (found + rest) =~= (before + found) + rest);
                }
            },
            None => {},
        }
        k += 1;
    }
    assert(report@ + Seq::<FindingView>::empty() =~= report@);
}

// ---------------------------------------------------------------------------
// One file
// ---------------------------------------------------------------------------
/// The findings that the text of one file gives. The body of statement `k` has
/// the diagnostics `bodies[k]`.
pub open spec fn file_findings(source: Seq<char>, bodies: Seq<Vec<BodyDiagnostic>>) -> Seq<
    FindingView,
> {
    let s = statements::statements_of(source);
    trailing_from(source, 0) + final_newline(source) + assignments_from(s, 0, Seq::empty())
        + functions_from(s, 0, Seq::empty()) + bodies_from(source, s, bodies, 0) + empty_from(s, 0)
        + inherits_from(s, 0, Seq::empty())
}

/// The findings that the text of one file gives.
pub fn collect_findings(
    source: &[char],
    statements: &Vec<Statement>,
    bodies: &Vec<Vec<BodyDiagnostic>>,
) -> (r: Report)
    requires
        statements::statement_views(statements@) == statements::statements_of(source@),
        statements::statements_inside(source@, statements::statement_views(statements@)),
    ensures
        r@ == file_findings(source@, bodies@),
        r.wf(),
        r.limit() == source@.len(),
{
    let mut report = Report::new(source.len());
    check_trailing_whitespace(source, &mut report);
    assert(report@ =~= trailing_from(source@, 0));
    check_final_newline(source, &mut report);
    check_assignments(statements, &mut report, Ghost(source@));
    check_duplicate_functions(statements, &mut report, Ghost(source@));
    check_body_diagnostics(source, statements, bodies, &mut report);
    check_empty_directives(statements, &mut report, Ghost(source@));
    check_duplicate_inherits(statements, &mut report, Ghost(source@));
    report
}

} // verus!
