//! Lint findings and the diagnostics that report them.
use crate::collections;
use crate::rules;
use crate::text;
use crate::tree;
use crate::rules::LintOptions;
use crate::rules::LintSeverity;
use crate::rules::RULE_COUNT;
use crate::rules::rule;
use crate::text::byte_length;
use crate::text::chars_of;
use crate::text::line_col_of;
use crate::text::string_of;
use crate::tree::TextRange;
use vstd::prelude::*;
use vstd::slice::slice_subrange;

verus! {

// ---------------------------------------------------------------------------
// Findings
// ---------------------------------------------------------------------------
/// A safe edit of the characters that a finding is about.
#[verifier::ext_equal]
pub struct EditView {
    pub replacement: Seq<char>,
    pub message: Seq<char>,
    pub help: Seq<char>,
}

/// What a rule found in the characters `from..to` of a text.
#[verifier::ext_equal]
pub struct FindingView {
    pub rule: nat,
    pub from: int,
    pub to: int,
    pub message: Seq<char>,
    pub edit: Option<EditView>,
}

/// A finding without an edit.
pub open spec fn finding(rule: usize, from: int, to: int, message: Seq<char>) -> FindingView {
    FindingView { rule: rule as nat, from, to, message, edit: None }
}

struct Edit {
    replacement: String,
    message: String,
    help: String,
}

impl Edit {
    spec fn view(&self) -> EditView {
        EditView {
            replacement: self.replacement@,
            message: self.message@,
            help: self.help@,
        }
    }
}

struct Finding {
    rule: usize,
    from: usize,
    to: usize,
    message: String,
    edit: Option<Edit>,
}

impl Finding {
    spec fn view(&self) -> FindingView {
        FindingView {
            rule: self.rule as nat,
            from: self.from as int,
            to: self.to as int,
            message: self.message@,
            edit: match self.edit {
                Some(edit) => Some(edit@),
                None => None,
            },
        }
    }
}

/// The findings in a text of a known number of characters.
pub struct Report {
    size: usize,
    items: Vec<Finding>,
}

/// The findings are of known rules and lie in a text of `size` characters.
pub open spec fn findings_inside(items: Seq<FindingView>, size: int) -> bool {
    forall|k: int|
        0 <= k < items.len() ==> (#[trigger] items[k]).rule < RULE_COUNT && 0 <= items[k].from
            <= size && 0 <= items[k].to <= size
}

impl Report {
    pub closed spec fn view(&self) -> Seq<FindingView> {
        self.items@.map_values(|f: Finding| f@)
    }

    pub closed spec fn limit(&self) -> int {
        self.size as int
    }

    pub open spec fn wf(&self) -> bool {
        findings_inside(self@, self.limit())
    }

    /// No findings in a text of `size` characters.
    pub fn new(size: usize) -> (r: Report)
        ensures
            r@ == Seq::<FindingView>::empty(),
            r.limit() == size,
            r.wf(),
    {
        let r = Report { size, items: Vec::new() };
        assert(r@ =~= Seq::empty());
        r
    }

    /// Adds a finding.
    pub fn push(&mut self, rule: usize, from: usize, to: usize, message: &[char])
        requires
            old(self).wf(),
            rule < RULE_COUNT,
            from <= old(self).limit(),
            to <= old(self).limit(),
        ensures
            final(self)@ == old(self)@.push(finding(rule, from as int, to as int, message@)),
            final(self).limit() == old(self).limit(),
            final(self).wf(),
    {
        let ghost before = self@;
        self.items.push(Finding { rule, from, to, message: string_of(message), edit: None });
        assert(self@ =~= before.push(finding(rule, from as int, to as int, message@)));
    }

    /// Adds a finding with a safe edit.
    pub fn push_edit(
        &mut self,
        rule: usize,
        from: usize,
        to: usize,
        message: &str,
        replacement: &str,
        edit: &str,
        help: &str,
    )
        requires
            old(self).wf(),
            rule < RULE_COUNT,
            from <= old(self).limit(),
            to <= old(self).limit(),
        ensures
            final(self)@ == old(self)@.push(
                FindingView {
                    rule: rule as nat,
                    from: from as int,
                    to: to as int,
                    message: message@,
                    edit: Some(
                        EditView { replacement: replacement@, message: edit@, help: help@ },
                    ),
                },
            ),
            final(self).limit() == old(self).limit(),
            final(self).wf(),
    {
        let ghost before = self@;
        let item = Finding {
            rule,
            from,
            to,
            message: message.to_owned(),
            edit: Some(
                Edit {
                    replacement: replacement.to_owned(),
                    message: edit.to_owned(),
                    help: help.to_owned(),
                },
            ),
        };
        let ghost view = item@;
        self.items.push(item);
        assert(self@ =~= before.push(view));
    }
}

// ---------------------------------------------------------------------------
// Diagnostics
// ---------------------------------------------------------------------------
/// An edit of the bytes `start..end` of a text.
#[verifier::ext_equal]
pub struct FixView {
    pub start: int,
    pub end: int,
    pub replacement: Seq<char>,
    pub message: Seq<char>,
}

/// What a diagnostic says.
#[verifier::ext_equal]
pub struct DiagnosticView {
    pub rule_id: Seq<char>,
    pub severity: LintSeverity,
    pub line: int,
    pub column: int,
    pub end_line: int,
    pub end_column: int,
    pub start: int,
    pub end: int,
    pub message: Seq<char>,
    pub help: Option<Seq<char>>,
    pub fixes: Seq<FixView>,
}

/// The diagnostic that reports a finding in `source`.
pub open spec fn diagnosed(source: Seq<char>, f: FindingView) -> DiagnosticView {
    DiagnosticView {
        rule_id: rules::rule_view(f.rule).id,
        severity: rules::rule_view(f.rule).severity,
        line: text::line_col_at(source, f.from).0,
        column: text::line_col_at(source, f.from).1,
        end_line: text::line_col_at(source, f.to).0,
        end_column: text::line_col_at(source, f.to).1,
        start: tree::offset_of(source, f.from),
        end: tree::offset_of(source, f.to),
        message: f.message,
        help: match f.edit {
            Some(edit) => Some(edit.help),
            None => None,
        },
        fixes: match f.edit {
            Some(edit) => seq![
                FixView {
                    start: tree::offset_of(source, f.from),
                    end: tree::offset_of(source, f.to),
                    replacement: edit.replacement,
                    message: edit.message,
                },
            ],
            None => Seq::empty(),
        },
    }
}

/// The diagnostics that report findings in `source`.
pub open spec fn all_diagnosed(source: Seq<char>, items: Seq<FindingView>) -> Seq<DiagnosticView> {
    items.map_values(|f: FindingView| diagnosed(source, f))
}

/// A line or column number of a tool, counted from one.
pub open spec fn counted(n: Option<usize>) -> int {
    match n {
        Some(n) => if n == 0 {
            1
        } else {
            n as int
        },
        None => 1,
    }
}

/// A diagnostic of the rule at position `rule` that comes from outside a
/// source file.
pub open spec fn external_diagnostic(
    rule: nat,
    severity: LintSeverity,
    line: Option<usize>,
    column: Option<usize>,
    message: Seq<char>,
) -> DiagnosticView {
    DiagnosticView {
        rule_id: rules::rule_view(rule).id,
        severity,
        line: counted(line),
        column: counted(column),
        end_line: counted(line),
        end_column: if counted(column) == usize::MAX {
            usize::MAX as int
        } else {
            counted(column) + 1
        },
        start: 0,
        end: 0,
        message,
        help: None,
        fixes: Seq::empty(),
    }
}

/// A source edit proposed by a lint diagnostic.
#[derive(Clone, Debug, Eq, PartialEq)]
pub struct LintFix {
    range: TextRange,
    replacement: String,
    message: String,
}

impl LintFix {
    pub closed spec fn view(&self) -> FixView {
        FixView {
            start: self.range.from(),
            end: self.range.to(),
            replacement: self.replacement@,
            message: self.message@,
        }
    }

    /// The half-open byte range replaced by this fix.
    pub fn range(&self) -> (r: TextRange)
        ensures
            r.from() == self@.start,
            r.to() == self@.end,
    {
        self.range
    }

    /// The replacement text.
    pub fn replacement(&self) -> (r: &str)
        ensures
            r@ == self@.replacement,
    {
        self.replacement.as_str()
    }

    /// A human-readable description of the edit.
    pub fn message(&self) -> (r: &str)
        ensures
            r@ == self@.message,
    {
        self.message.as_str()
    }
}

/// The contents of a list of edits.
pub open spec fn fix_views(fixes: Seq<LintFix>) -> Seq<FixView> {
    fixes.map_values(|f: LintFix| f@)
}

/// A rule's finding as it is reported.
#[derive(Clone, Debug, Eq, PartialEq)]
pub struct LintDiagnostic {
    rule_id: &'static str,
    severity: LintSeverity,
    line: usize,
    column: usize,
    end_line: usize,
    end_column: usize,
    range: TextRange,
    message: String,
    help: Option<String>,
    fixes: Vec<LintFix>,
}

impl LintDiagnostic {
    pub closed spec fn view(&self) -> DiagnosticView {
        DiagnosticView {
            rule_id: self.rule_id@,
            severity: self.severity,
            line: self.line as int,
            column: self.column as int,
            end_line: self.end_line as int,
            end_column: self.end_column as int,
            start: self.range.from(),
            end: self.range.to(),
            message: self.message@,
            help: collections::optional_text(self.help),
            fixes: fix_views(self.fixes@),
        }
    }

    /// The diagnostic that reports a finding.
    fn at(chars: &[char], finding: Finding) -> (r: LintDiagnostic)
        requires
            text::byte_len(chars@) < usize::MAX,
            finding@.rule < RULE_COUNT,
            finding@.from <= chars@.len(),
            finding@.to <= chars@.len(),
        ensures
            r@ == diagnosed(chars@, finding@),
    {
        let ghost view = finding@;
        proof {
            text::lemma_byte_len_at_least(chars@);
            text::lemma_byte_len_range(chars@, finding.from as int, chars@.len() as int);
            text::lemma_byte_len_range(chars@, finding.to as int, chars@.len() as int);
            assert(chars@.take(chars@.len() as int) =~= chars@);
            assert(chars@.subrange(0, finding.from as int) =~= chars@.take(finding.from as int));
            assert(chars@.subrange(0, finding.to as int) =~= chars@.take(finding.to as int));
        }
        let rule = rule(finding.rule);
        let (line, column) = line_col_of(chars, finding.from);
        let (end_line, end_column) = line_col_of(chars, finding.to);
        let start = byte_length(slice_subrange(chars, 0, finding.from));
        let end = byte_length(slice_subrange(chars, 0, finding.to));
        let range = TextRange::new(start, end);
        let mut help: Option<String> = None;
        let mut fixes: Vec<LintFix> = Vec::new();
        match finding.edit {
            Some(edit) => {
                fixes.push(
                    LintFix { range, replacement: edit.replacement, message: edit.message },
                );
                help = Some(edit.help);
            },
            None => {},
        }
        let r = LintDiagnostic {
            rule_id: rule.id(),
            severity: rule.severity(),
            line,
            column,
            end_line,
            end_column,
            range,
            message: finding.message,
            help,
            fixes,
        };
        assert(fix_views(r.fixes@) =~= diagnosed(chars@, view).fixes);
        r
    }

    /// A diagnostic of the rule at position `rule` that comes from outside a
    /// source file.
    pub fn external(
        rule: usize,
        severity: LintSeverity,
        line: Option<usize>,
        column: Option<usize>,
        message: &[char],
    ) -> (r: LintDiagnostic)
        requires
            rule < RULE_COUNT,
        ensures
            r@ == external_diagnostic(rule as nat, severity, line, column, message@),
    {
        let rule = crate::rules::rule(rule);
        let line = one_based(line);
        let column = one_based(column);
        let end_column = if column == usize::MAX {
            column
        } else {
            column + 1
        };
        let r = LintDiagnostic {
            rule_id: rule.id(),
            severity,
            line,
            column,
            end_line: line,
            end_column,
            range: TextRange::new(0, 0),
            message: string_of(message),
            help: None,
            fixes: Vec::new(),
        };
        assert(fix_views(r.fixes@) =~= Seq::empty());
        r
    }

    /// The identifier of the rule.
    pub fn rule_id(&self) -> (r: &'static str)
        ensures
            r@ == self@.rule_id,
    {
        self.rule_id
    }

    /// The severity of the finding.
    pub fn severity(&self) -> (r: LintSeverity)
        ensures
            r == self@.severity,
    {
        self.severity
    }

    /// The same diagnostic at the severity that `options` gives its rule.
    pub fn adjusted(self, options: &LintOptions) -> (r: LintDiagnostic)
        requires
            options.wf(),
        ensures
            r@ == (DiagnosticView {
                severity: rules::effective(options@, self@.rule_id, self@.severity),
                ..self@
            }),
    {
        let severity = options.severity_for(self.rule_id, self.severity);
        LintDiagnostic { severity, ..self }
    }

    /// The line of the finding, counted from one.
    pub fn line(&self) -> (r: usize)
        ensures
            r == self@.line,
    {
        self.line
    }

    /// The column of the finding, counted from one.
    pub fn column(&self) -> (r: usize)
        ensures
            r == self@.column,
    {
        self.column
    }

    /// The one-based ending line of the primary range.
    pub fn end_line(&self) -> (r: usize)
        ensures
            r == self@.end_line,
    {
        self.end_line
    }

    /// The one-based ending column of the primary range.
    pub fn end_column(&self) -> (r: usize)
        ensures
            r == self@.end_column,
    {
        self.end_column
    }

    /// What was found.
    pub fn message(&self) -> (r: &str)
        ensures
            r@ == self@.message,
    {
        self.message.as_str()
    }

    /// The primary source range associated with this finding.
    pub fn range(&self) -> (r: TextRange)
        ensures
            r.from() == self@.start,
            r.to() == self@.end,
    {
        self.range
    }

    /// The optional explanation or suggested next step.
    pub fn help(&self) -> (r: Option<&str>)
        ensures
            match r {
                Some(help) => self@.help == Some(help@),
                None => self@.help is None,
            },
    {
        match &self.help {
            Some(help) => Some(help.as_str()),
            None => None,
        }
    }

    /// Safe edits that can be applied without human judgment.
    pub fn fixes(&self) -> (r: &[LintFix])
        ensures
            fix_views(r@) == self@.fixes,
    {
        self.fixes.as_slice()
    }

    /// Whether this diagnostic has at least one safe fix.
    pub fn is_fixable(&self) -> (r: bool)
        ensures
            r == (self@.fixes.len() > 0),
    {
        self.fixes.len() > 0
    }
}

fn one_based(n: Option<usize>) -> (r: usize)
    ensures
        r == counted(n),
{
    match n {
        Some(n) => if n == 0 {
            1
        } else {
            n
        },
        None => 1,
    }
}

/// The contents of a list of diagnostics.
pub open spec fn diagnostic_views(items: Seq<LintDiagnostic>) -> Seq<DiagnosticView> {
    items.map_values(|d: LintDiagnostic| d@)
}

/// The diagnostics that report the findings of `report` in `source`.
pub fn diagnose(source: &str, report: Report) -> (r: Vec<LintDiagnostic>)
    requires
        text::byte_len(source@) < usize::MAX,
        report.wf(),
        report.limit() == source@.len(),
    ensures
        diagnostic_views(r@) == all_diagnosed(source@, report@),
{
    let chars = chars_of(source);
    let ghost views = report@;
    let mut items = report.items;
    let ghost all = items@;
    let mut out: Vec<LintDiagnostic> = Vec::new();
    let count = items.len();
    let mut k: usize = 0;
    while k < count
        invariant
            k <= count,
            count == all.len(),
            views == all.map_values(|f: Finding| f@),
            findings_inside(views, source@.len() as int),
            text::byte_len(source@) < usize::MAX,
            chars@ == source@,
            items@ =~= all.skip(k as int),
            diagnostic_views(out@) =~= all_diagnosed(source@, views.take(k as int)),
        decreases count - k,
    {
        let next = items.remove(0);
        assert(views[k as int] == next@);
        let ghost before = out@;
        out.push(LintDiagnostic::at(chars.as_slice(), next));
        k += 1;
        assert(views.take(k as int) =~= views.take(k - 1).push(views[k - 1]));
        assert(diagnostic_views(out@) =~= diagnostic_views(before).push(
            diagnosed(source@, views[k - 1]),
        ));
    }
    assert(views.take(k as int) =~= views);
    out
}

} // verus!
