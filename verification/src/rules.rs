//! Lint rules, severities and rule settings.
use crate::collections::TextMap;
use crate::text::append_str;
use crate::text::chars_of;
use crate::text::same_str;
use crate::text::string_of;
use vstd::prelude::*;

verus! {

/// How serious a lint finding is.
#[derive(Clone, Copy, Debug, Eq, PartialEq, Structural)]
pub enum LintSeverity {
    Info,
    Warning,
    Error,
}

/// The word for a severity.
pub open spec fn severity_word(severity: LintSeverity) -> Seq<char> {
    match severity {
        LintSeverity::Info => "info"@,
        LintSeverity::Warning => "warning"@,
        LintSeverity::Error => "error"@,
    }
}

/// The severity that `word` names.
pub open spec fn severity_named(word: Seq<char>) -> Option<LintSeverity> {
    if word == "info"@ {
        Some(LintSeverity::Info)
    } else if word == "warning"@ {
        Some(LintSeverity::Warning)
    } else if word == "error"@ {
        Some(LintSeverity::Error)
    } else {
        None
    }
}

pub proof fn lemma_severity_named(severity: LintSeverity)
    ensures
        severity_named(severity_word(severity)) == Some(severity),
{
    reveal_strlit("info");
    reveal_strlit("warning");
    reveal_strlit("error");
    assert("warning"@[0] != "info"@[0]);
    assert("error"@[0] != "info"@[0]);
    assert("error"@[0] != "warning"@[0]);
}

impl LintSeverity {
    /// The severity that `value` names, or a message that names the choices.
    pub fn from_str(value: &str) -> (r: Result<LintSeverity, String>)
        ensures
            match severity_named(value@) {
                Some(severity) => r == Ok::<LintSeverity, String>(severity),
                None => r matches Err(message) && message@ == "invalid lint severity '"@ + value@
                    + "'; expected info, warning, or error"@,
            },
    {
        if same_str(value, "info") {
            Ok(LintSeverity::Info)
        } else if same_str(value, "warning") {
            Ok(LintSeverity::Warning)
        } else if same_str(value, "error") {
            Ok(LintSeverity::Error)
        } else {
            let mut message = chars_of("invalid lint severity '");
            append_str(&mut message, value);
            append_str(&mut message, "'; expected info, warning, or error");
            Err(string_of(message.as_slice()))
        }
    }

    /// The word for the severity.
    pub fn as_str(self) -> (r: &'static str)
        ensures
            r@ == severity_word(self),
    {
        match self {
            LintSeverity::Info => "info",
            LintSeverity::Warning => "warning",
            LintSeverity::Error => "error",
        }
    }
}

/// The least severity of a finding that fails a lint run.
#[derive(Clone, Copy, Debug, Eq, PartialEq, Structural)]
pub enum LintFailurePolicy {
    Info,
    Warning,
    Error,
    Never,
}

impl Default for LintFailurePolicy {
    fn default() -> (r: LintFailurePolicy)
        ensures
            r == LintFailurePolicy::Warning,
    {
        LintFailurePolicy::Warning
    }
}

/// The word for a policy.
pub open spec fn policy_word(policy: LintFailurePolicy) -> Seq<char> {
    match policy {
        LintFailurePolicy::Info => "info"@,
        LintFailurePolicy::Warning => "warning"@,
        LintFailurePolicy::Error => "error"@,
        LintFailurePolicy::Never => "never"@,
    }
}

/// The policy that `word` names.
pub open spec fn policy_named(word: Seq<char>) -> Option<LintFailurePolicy> {
    if word == "info"@ {
        Some(LintFailurePolicy::Info)
    } else if word == "warning"@ {
        Some(LintFailurePolicy::Warning)
    } else if word == "error"@ {
        Some(LintFailurePolicy::Error)
    } else if word == "never"@ {
        Some(LintFailurePolicy::Never)
    } else {
        None
    }
}

/// Whether a finding of `severity` fails a run under `policy`.
pub open spec fn blocks(policy: LintFailurePolicy, severity: LintSeverity) -> bool {
    match policy {
        LintFailurePolicy::Info => true,
        LintFailurePolicy::Warning => severity != LintSeverity::Info,
        LintFailurePolicy::Error => severity == LintSeverity::Error,
        LintFailurePolicy::Never => false,
    }
}

/// How strict a policy is: a finding that fails a run under one policy fails
/// it under every stricter one.
pub open spec fn strictness(policy: LintFailurePolicy) -> int {
    match policy {
        LintFailurePolicy::Never => 0,
        LintFailurePolicy::Error => 1,
        LintFailurePolicy::Warning => 2,
        LintFailurePolicy::Info => 3,
    }
}

/// A stricter policy blocks on every severity that a laxer one blocks on.
pub proof fn law_stricter_policies_block_more(
    lax: LintFailurePolicy,
    strict: LintFailurePolicy,
    severity: LintSeverity,
)
    requires
        strictness(lax) <= strictness(strict),
        blocks(lax, severity),
    ensures
        blocks(strict, severity),
{
}

/// The words for severities and policies are read back as what they stand for.
pub proof fn law_names_are_read_back(severity: LintSeverity, policy: LintFailurePolicy)
    ensures
        severity_named(severity_word(severity)) == Some(severity),
        policy_named(policy_word(policy)) == Some(policy),
{
    lemma_severity_named(severity);
    reveal_strlit("info");
    reveal_strlit("warning");
    reveal_strlit("error");
    reveal_strlit("never");
    assert("warning"@[0] != "info"@[0]);
    assert("error"@[0] != "info"@[0]);
    assert("error"@[0] != "warning"@[0]);
    assert("never"@[0] != "info"@[0]);
    assert("never"@[0] != "warning"@[0]);
    assert("never"@[0] != "error"@[0]);
}

impl LintFailurePolicy {
    /// The policy that `value` names, or a message that names the choices.
    pub fn from_str(value: &str) -> (r: Result<LintFailurePolicy, String>)
        ensures
            match policy_named(value@) {
                Some(policy) => r == Ok::<LintFailurePolicy, String>(policy),
                None => r matches Err(message) && message@ == "invalid lint failure policy '"@
                    + value@ + "'; expected info, warning, error, or never"@,
            },
    {
        if same_str(value, "info") {
            Ok(LintFailurePolicy::Info)
        } else if same_str(value, "warning") {
            Ok(LintFailurePolicy::Warning)
        } else if same_str(value, "error") {
            Ok(LintFailurePolicy::Error)
        } else if same_str(value, "never") {
            Ok(LintFailurePolicy::Never)
        } else {
            let mut message = chars_of("invalid lint failure policy '");
            append_str(&mut message, value);
            append_str(&mut message, "'; expected info, warning, error, or never");
            Err(string_of(message.as_slice()))
        }
    }

    /// The word for the policy.
    pub fn as_str(self) -> (r: &'static str)
        ensures
            r@ == policy_word(self),
    {
        match self {
            LintFailurePolicy::Info => "info",
            LintFailurePolicy::Warning => "warning",
            LintFailurePolicy::Error => "error",
            LintFailurePolicy::Never => "never",
        }
    }

    /// Whether a finding of `severity` fails the run.
    pub fn is_blocking(self, severity: LintSeverity) -> (r: bool)
        ensures
            r == blocks(self, severity),
    {
        match self {
            LintFailurePolicy::Info => true,
            LintFailurePolicy::Warning => match severity {
                LintSeverity::Info => false,
                LintSeverity::Warning => true,
                LintSeverity::Error => true,
            },
            LintFailurePolicy::Error => match severity {
                LintSeverity::Info => false,
                LintSeverity::Warning => false,
                LintSeverity::Error => true,
            },
            LintFailurePolicy::Never => false,
        }
    }
}

/// What a lint rule is.
#[verifier::ext_equal]
pub struct RuleView {
    pub id: Seq<char>,
    pub name: Seq<char>,
    pub severity: LintSeverity,
    pub description: Seq<char>,
    pub fixable: bool,
}

pub const RULE_TRAILING_WHITESPACE: usize = 0;
pub const RULE_FINAL_NEWLINE: usize = 1;
pub const RULE_SUMMARY_LENGTH: usize = 2;
pub const RULE_AUTOREV: usize = 3;
pub const RULE_DUPLICATE_INHERIT: usize = 4;
pub const RULE_UNRESOLVED_REQUIRE: usize = 5;
pub const RULE_UNRESOLVED_INHERIT: usize = 6;
pub const RULE_AMBIGUOUS_REQUIRE: usize = 7;
pub const RULE_AMBIGUOUS_INHERIT: usize = 8;
pub const RULE_DEPENDENCY_CYCLE: usize = 9;
pub const RULE_MISSING_SUMMARY: usize = 10;
pub const RULE_MISSING_DESCRIPTION: usize = 11;
pub const RULE_MISSING_LICENSE: usize = 12;
pub const RULE_FILE_PATHS_IMMEDIATE: usize = 13;
pub const RULE_GIT_URI_PROTOCOL: usize = 14;
pub const RULE_DUPLICATE_ASSIGNMENT: usize = 15;
pub const RULE_DUPLICATE_FUNCTION: usize = 16;
pub const RULE_EMPTY_DIRECTIVE: usize = 17;
pub const RULE_BITBAKE_DIAGNOSTIC: usize = 18;
pub const RULE_RECIPE_NAME: usize = 19;
pub const RULE_RECIPE_VERSION: usize = 20;
pub const RULE_LICENSE_CHECKSUM: usize = 21;
pub const RULE_SOURCE_CHECKSUM: usize = 22;
pub const RULE_PACKAGECONFIG: usize = 23;
pub const RULE_PACKAGECONFIG_FORMAT: usize = 24;
pub const RULE_PACKAGE_SCOPE: usize = 25;
pub const RULE_PACKAGE_LIST: usize = 26;
pub const RULE_URI_PARAMETERS: usize = 27;
pub const RULE_LAYER_COLLECTIONS: usize = 28;
pub const RULE_LAYER_PATTERN: usize = 29;
pub const RULE_LAYER_PRIORITY: usize = 30;
pub const RULE_LAYER_DEPENDS: usize = 31;
pub const RULE_LAYER_SERIES_COMPAT: usize = 32;
pub const RULE_SHELL_SYNTAX: usize = 33;
pub const RULE_PYTHON_SYNTAX: usize = 34;
pub const RULE_PYTHON_INDENTATION: usize = 35;

/// The number of lint rules.
pub const RULE_COUNT: usize = 36;

/// The lint rule at position `k` of the rule table.
#[verifier::opaque]
pub open spec fn rule_view(k: nat) -> RuleView {
    if k == 0 {
        RuleView {
            id: "BBT001"@,
            name: "trailing-whitespace"@,
            severity: LintSeverity::Warning,
            description: "Lines must not end with spaces or tabs."@,
            fixable: true,
        }
    } else if k == 1 {
        RuleView {
            id: "BBT002"@,
            name: "final-newline"@,
            severity: LintSeverity::Warning,
            description: "Non-empty files must end with a newline."@,
            fixable: true,
        }
    } else if k == 2 {
        RuleView {
            id: "BBT003"@,
            name: "summary-length"@,
            severity: LintSeverity::Warning,
            description: "A literal SUMMARY must not exceed 80 characters."@,
            fixable: false,
        }
    } else if k == 3 {
        RuleView {
            id: "BBT004"@,
            name: "autorev"@,
            severity: LintSeverity::Warning,
            description: "SRCREV assignments must use a fixed revision instead of ${AUTOREV}."@,
            fixable: false,
        }
    } else if k == 4 {
        RuleView {
            id: "BBT005"@,
            name: "duplicate-inherit"@,
            severity: LintSeverity::Warning,
            description: "A class must not be inherited more than once in one file."@,
            fixable: false,
        }
    } else if k == 5 {
        RuleView {
            id: "BBT006"@,
            name: "unresolved-require"@,
            severity: LintSeverity::Warning,
            description: "A static require target must resolve within the indexed layers."@,
            fixable: false,
        }
    } else if k == 6 {
        RuleView {
            id: "BBT007"@,
            name: "unresolved-inherit"@,
            severity: LintSeverity::Warning,
            description: "A static inherited class must resolve within the indexed layers."@,
            fixable: false,
        }
    } else if k == 7 {
        RuleView {
            id: "BBT008"@,
            name: "ambiguous-require"@,
            severity: LintSeverity::Warning,
            description: "A static require target must resolve to one highest-priority file."@,
            fixable: false,
        }
    } else if k == 8 {
        RuleView {
            id: "BBT009"@,
            name: "ambiguous-inherit"@,
            severity: LintSeverity::Warning,
            description: "A static inherited class must resolve to one highest-priority definition."@,
            fixable: false,
        }
    } else if k == 9 {
        RuleView {
            id: "BBT010"@,
            name: "dependency-cycle"@,
            severity: LintSeverity::Warning,
            description: "A static metadata dependency must not close a resolution cycle."@,
            fixable: false,
        }
    } else if k == 10 {
        RuleView {
            id: "BBT011"@,
            name: "missing-summary"@,
            severity: LintSeverity::Warning,
            description: "Recipes must declare a SUMMARY."@,
            fixable: false,
        }
    } else if k == 11 {
        RuleView {
            id: "BBT012"@,
            name: "missing-description"@,
            severity: LintSeverity::Warning,
            description: "Recipes must declare a DESCRIPTION."@,
            fixable: false,
        }
    } else if k == 12 {
        RuleView {
            id: "BBT013"@,
            name: "missing-license"@,
            severity: LintSeverity::Warning,
            description: "Recipes must declare a LICENSE."@,
            fixable: false,
        }
    } else if k == 13 {
        RuleView {
            id: "BBT014"@,
            name: "file-paths-immediate"@,
            severity: LintSeverity::Warning,
            description: "FILESEXTRAPATHS must use immediate expansion."@,
            fixable: false,
        }
    } else if k == 14 {
        RuleView {
            id: "BBT015"@,
            name: "git-uri-protocol"@,
            severity: LintSeverity::Warning,
            description: "Git fetch URLs must declare their transport protocol."@,
            fixable: false,
        }
    } else if k == 15 {
        RuleView {
            id: "BBT016"@,
            name: "duplicate-assignment"@,
            severity: LintSeverity::Warning,
            description: "A variable should not be assigned directly more than once in one file."@,
            fixable: false,
        }
    } else if k == 16 {
        RuleView {
            id: "BBT017"@,
            name: "duplicate-function"@,
            severity: LintSeverity::Warning,
            description: "A task or function should not be declared more than once in one file."@,
            fixable: false,
        }
    } else if k == 17 {
        RuleView {
            id: "BBT018"@,
            name: "empty-directive"@,
            severity: LintSeverity::Warning,
            description: "Metadata dependency directives must name a target."@,
            fixable: false,
        }
    } else if k == 18 {
        RuleView {
            id: "BBT019"@,
            name: "bitbake-diagnostic"@,
            severity: LintSeverity::Error,
            description: "BitBake reported a semantic diagnostic."@,
            fixable: false,
        }
    } else if k == 19 {
        RuleView {
            id: "BBT020"@,
            name: "recipe-name"@,
            severity: LintSeverity::Warning,
            description: "An explicit PN should match the recipe filename."@,
            fixable: false,
        }
    } else if k == 20 {
        RuleView {
            id: "BBT021"@,
            name: "recipe-version"@,
            severity: LintSeverity::Warning,
            description: "An explicit PV should match the version in the recipe filename."@,
            fixable: false,
        }
    } else if k == 21 {
        RuleView {
            id: "BBT022"@,
            name: "license-checksum"@,
            severity: LintSeverity::Warning,
            description: "Non-CLOSED recipes must provide valid license-file checksums."@,
            fixable: false,
        }
    } else if k == 22 {
        RuleView {
            id: "BBT023"@,
            name: "source-checksum"@,
            severity: LintSeverity::Warning,
            description: "Remote source archives must provide a valid checksum."@,
            fixable: false,
        }
    } else if k == 23 {
        RuleView {
            id: "BBT024"@,
            name: "packageconfig"@,
            severity: LintSeverity::Warning,
            description: "Enabled PACKAGECONFIG features must have flag definitions."@,
            fixable: false,
        }
    } else if k == 24 {
        RuleView {
            id: "BBT025"@,
            name: "packageconfig-format"@,
            severity: LintSeverity::Warning,
            description: "PACKAGECONFIG flags must provide enable, disable, and dependency fields."@,
            fixable: false,
        }
    } else if k == 25 {
        RuleView {
            id: "BBT026"@,
            name: "package-scope"@,
            severity: LintSeverity::Warning,
            description: "Package-scoped variables must refer to declared packages."@,
            fixable: false,
        }
    } else if k == 26 {
        RuleView {
            id: "BBT027"@,
            name: "package-list"@,
            severity: LintSeverity::Warning,
            description: "PACKAGES must not contain duplicate package names."@,
            fixable: false,
        }
    } else if k == 27 {
        RuleView {
            id: "BBT028"@,
            name: "uri-parameters"@,
            severity: LintSeverity::Warning,
            description: "SRC_URI entries must not contain invalid or conflicting parameters."@,
            fixable: false,
        }
    } else if k == 28 {
        RuleView {
            id: "BBT029"@,
            name: "layer-collections"@,
            severity: LintSeverity::Warning,
            description: "A layer must declare nonempty BBFILE_COLLECTIONS metadata."@,
            fixable: false,
        }
    } else if k == 29 {
        RuleView {
            id: "BBT030"@,
            name: "layer-pattern"@,
            severity: LintSeverity::Warning,
            description: "Every layer collection must define a BBFILE_PATTERN."@,
            fixable: false,
        }
    } else if k == 30 {
        RuleView {
            id: "BBT031"@,
            name: "layer-priority"@,
            severity: LintSeverity::Warning,
            description: "Every layer collection must define an integer BBFILE_PRIORITY."@,
            fixable: false,
        }
    } else if k == 31 {
        RuleView {
            id: "BBT032"@,
            name: "layer-depends"@,
            severity: LintSeverity::Warning,
            description: "LAYERDEPENDS entries must reference indexed layer collections."@,
            fixable: false,
        }
    } else if k == 32 {
        RuleView {
            id: "BBT033"@,
            name: "layer-series-compat"@,
            severity: LintSeverity::Warning,
            description: "Every layer collection must declare LAYERSERIES_COMPAT."@,
            fixable: false,
        }
    } else if k == 33 {
        RuleView {
            id: "BBT034"@,
            name: "shell-syntax"@,
            severity: LintSeverity::Warning,
            description: "Shell function bodies must have balanced control-flow constructs."@,
            fixable: false,
        }
    } else if k == 34 {
        RuleView {
            id: "BBT035"@,
            name: "python-syntax"@,
            severity: LintSeverity::Warning,
            description: "Embedded Python bodies must have valid delimiters and compound statements."@,
            fixable: false,
        }
    } else {
        RuleView {
            id: "BBT036"@,
            name: "python-indentation"@,
            severity: LintSeverity::Warning,
            description: "Embedded Python bodies must use consistent indentation."@,
            fixable: false,
        }
    }
}

/// The identifier of the rule at position `k`.
pub open spec fn rule_id(k: nat) -> Seq<char> {
    rule_view(k).id
}

/// A stable lint rule.
#[derive(Clone, Copy, Debug, Eq, PartialEq)]
pub struct LintRule {
    id: &'static str,
    name: &'static str,
    severity: LintSeverity,
    description: &'static str,
    fixable: bool,
}

impl LintRule {
    pub closed spec fn view(&self) -> RuleView {
        RuleView {
            id: self.id@,
            name: self.name@,
            severity: self.severity,
            description: self.description@,
            fixable: self.fixable,
        }
    }

    /// The identifier of the rule.
    pub fn id(&self) -> (r: &'static str)
        ensures
            r@ == self@.id,
    {
        self.id
    }

    /// The name of the rule.
    pub fn name(&self) -> (r: &'static str)
        ensures
            r@ == self@.name,
    {
        self.name
    }

    /// The severity of the rule's findings.
    pub fn severity(&self) -> (r: LintSeverity)
        ensures
            r == self@.severity,
    {
        self.severity
    }

    /// What the rule asks for.
    pub fn description(&self) -> (r: &'static str)
        ensures
            r@ == self@.description,
    {
        self.description
    }

    /// Whether the rule's findings carry safe edits.
    pub fn fixable(&self) -> (r: bool)
        ensures
            r == self@.fixable,
    {
        self.fixable
    }

    /// Whether the rule's findings carry safe edits.
    pub fn is_fixable(&self) -> (r: bool)
        ensures
            r == self@.fixable,
    {
        self.fixable()
    }
}

/// The rule at position `index` of the rule table.
pub fn rule(index: usize) -> (r: LintRule)
    requires
        index < RULE_COUNT,
    ensures
        r@ == rule_view(index as nat),
{
    proof {
        reveal(rule_view);
    }
    match index {
        0 => LintRule {
            id: "BBT001",
            name: "trailing-whitespace",
            severity: LintSeverity::Warning,
            description: "Lines must not end with spaces or tabs.",
            fixable: true,
        },
        1 => LintRule {
            id: "BBT002",
            name: "final-newline",
            severity: LintSeverity::Warning,
            description: "Non-empty files must end with a newline.",
            fixable: true,
        },
        2 => LintRule {
            id: "BBT003",
            name: "summary-length",
            severity: LintSeverity::Warning,
            description: "A literal SUMMARY must not exceed 80 characters.",
            fixable: false,
        },
        3 => LintRule {
            id: "BBT004",
            name: "autorev",
            severity: LintSeverity::Warning,
            description: "SRCREV assignments must use a fixed revision instead of ${AUTOREV}.",
            fixable: false,
        },
        4 => LintRule {
            id: "BBT005",
            name: "duplicate-inherit",
            severity: LintSeverity::Warning,
            description: "A class must not be inherited more than once in one file.",
            fixable: false,
        },
        5 => LintRule {
            id: "BBT006",
            name: "unresolved-require",
            severity: LintSeverity::Warning,
            description: "A static require target must resolve within the indexed layers.",
            fixable: false,
        },
        6 => LintRule {
            id: "BBT007",
            name: "unresolved-inherit",
            severity: LintSeverity::Warning,
            description: "A static inherited class must resolve within the indexed layers.",
            fixable: false,
        },
        7 => LintRule {
            id: "BBT008",
            name: "ambiguous-require",
            severity: LintSeverity::Warning,
            description: "A static require target must resolve to one highest-priority file.",
            fixable: false,
        },
        8 => LintRule {
            id: "BBT009",
            name: "ambiguous-inherit",
            severity: LintSeverity::Warning,
            description: "A static inherited class must resolve to one highest-priority definition.",
            fixable: false,
        },
        9 => LintRule {
            id: "BBT010",
            name: "dependency-cycle",
            severity: LintSeverity::Warning,
            description: "A static metadata dependency must not close a resolution cycle.",
            fixable: false,
        },
        10 => LintRule {
            id: "BBT011",
            name: "missing-summary",
            severity: LintSeverity::Warning,
            description: "Recipes must declare a SUMMARY.",
            fixable: false,
        },
        11 => LintRule {
            id: "BBT012",
            name: "missing-description",
            severity: LintSeverity::Warning,
            description: "Recipes must declare a DESCRIPTION.",
            fixable: false,
        },
        12 => LintRule {
            id: "BBT013",
            name: "missing-license",
            severity: LintSeverity::Warning,
            description: "Recipes must declare a LICENSE.",
            fixable: false,
        },
        13 => LintRule {
            id: "BBT014",
            name: "file-paths-immediate",
            severity: LintSeverity::Warning,
            description: "FILESEXTRAPATHS must use immediate expansion.",
            fixable: false,
        },
        14 => LintRule {
            id: "BBT015",
            name: "git-uri-protocol",
            severity: LintSeverity::Warning,
            description: "Git fetch URLs must declare their transport protocol.",
            fixable: false,
        },
        15 => LintRule {
            id: "BBT016",
            name: "duplicate-assignment",
            severity: LintSeverity::Warning,
            description: "A variable should not be assigned directly more than once in one file.",
            fixable: false,
        },
        16 => LintRule {
            id: "BBT017",
            name: "duplicate-function",
            severity: LintSeverity::Warning,
            description: "A task or function should not be declared more than once in one file.",
            fixable: false,
        },
        17 => LintRule {
            id: "BBT018",
            name: "empty-directive",
            severity: LintSeverity::Warning,
            description: "Metadata dependency directives must name a target.",
            fixable: false,
        },
        18 => LintRule {
            id: "BBT019",
            name: "bitbake-diagnostic",
            severity: LintSeverity::Error,
            description: "BitBake reported a semantic diagnostic.",
            fixable: false,
        },
        19 => LintRule {
            id: "BBT020",
            name: "recipe-name",
            severity: LintSeverity::Warning,
            description: "An explicit PN should match the recipe filename.",
            fixable: false,
        },
        20 => LintRule {
            id: "BBT021",
            name: "recipe-version",
            severity: LintSeverity::Warning,
            description: "An explicit PV should match the version in the recipe filename.",
            fixable: false,
        },
        21 => LintRule {
            id: "BBT022",
            name: "license-checksum",
            severity: LintSeverity::Warning,
            description: "Non-CLOSED recipes must provide valid license-file checksums.",
            fixable: false,
        },
        22 => LintRule {
            id: "BBT023",
            name: "source-checksum",
            severity: LintSeverity::Warning,
            description: "Remote source archives must provide a valid checksum.",
            fixable: false,
        },
        23 => LintRule {
            id: "BBT024",
            name: "packageconfig",
            severity: LintSeverity::Warning,
            description: "Enabled PACKAGECONFIG features must have flag definitions.",
            fixable: false,
        },
        24 => LintRule {
            id: "BBT025",
            name: "packageconfig-format",
            severity: LintSeverity::Warning,
            description: "PACKAGECONFIG flags must provide enable, disable, and dependency fields.",
            fixable: false,
        },
        25 => LintRule {
            id: "BBT026",
            name: "package-scope",
            severity: LintSeverity::Warning,
            description: "Package-scoped variables must refer to declared packages.",
            fixable: false,
        },
        26 => LintRule {
            id: "BBT027",
            name: "package-list",
            severity: LintSeverity::Warning,
            description: "PACKAGES must not contain duplicate package names.",
            fixable: false,
        },
        27 => LintRule {
            id: "BBT028",
            name: "uri-parameters",
            severity: LintSeverity::Warning,
            description: "SRC_URI entries must not contain invalid or conflicting parameters.",
            fixable: false,
        },
        28 => LintRule {
            id: "BBT029",
            name: "layer-collections",
            severity: LintSeverity::Warning,
            description: "A layer must declare nonempty BBFILE_COLLECTIONS metadata.",
            fixable: false,
        },
        29 => LintRule {
            id: "BBT030",
            name: "layer-pattern",
            severity: LintSeverity::Warning,
            description: "Every layer collection must define a BBFILE_PATTERN.",
            fixable: false,
        },
        30 => LintRule {
            id: "BBT031",
            name: "layer-priority",
            severity: LintSeverity::Warning,
            description: "Every layer collection must define an integer BBFILE_PRIORITY.",
            fixable: false,
        },
        31 => LintRule {
            id: "BBT032",
            name: "layer-depends",
            severity: LintSeverity::Warning,
            description: "LAYERDEPENDS entries must reference indexed layer collections.",
            fixable: false,
        },
        32 => LintRule {
            id: "BBT033",
            name: "layer-series-compat",
            severity: LintSeverity::Warning,
            description: "Every layer collection must declare LAYERSERIES_COMPAT.",
            fixable: false,
        },
        33 => LintRule {
            id: "BBT034",
            name: "shell-syntax",
            severity: LintSeverity::Warning,
            description: "Shell function bodies must have balanced control-flow constructs.",
            fixable: false,
        },
        34 => LintRule {
            id: "BBT035",
            name: "python-syntax",
            severity: LintSeverity::Warning,
            description: "Embedded Python bodies must have valid delimiters and compound statements.",
            fixable: false,
        },
        _ => LintRule {
            id: "BBT036",
            name: "python-indentation",
            severity: LintSeverity::Warning,
            description: "Embedded Python bodies must use consistent indentation.",
            fixable: false,
        },
    }
}

/// The rule table.
pub fn lint_rules() -> (r: Vec<LintRule>)
    ensures
        r@.len() == RULE_COUNT,
        forall|k: int| 0 <= k < RULE_COUNT ==> (#[trigger] r@[k])@ == rule_view(k as nat),
{
    let mut rules: Vec<LintRule> = Vec::new();
    let mut k: usize = 0;
    while k < RULE_COUNT
        invariant
            k <= RULE_COUNT,
            rules@.len() == k,
            forall|j: int| 0 <= j < k ==> (#[trigger] rules@[j])@ == rule_view(j as nat),
        decreases RULE_COUNT - k,
    {
        rules.push(rule(k));
        k += 1;
    }
    rules
}

/// Which rules are reported, at which severity, and which findings fail a run.
#[verifier::ext_equal]
pub struct OptionsView {
    pub disabled: Set<Seq<char>>,
    pub overrides: Map<Seq<char>, LintSeverity>,
    pub policy: LintFailurePolicy,
}

/// Options that report every rule at its own severity and fail on warnings.
pub open spec fn default_options() -> OptionsView {
    OptionsView {
        disabled: Set::empty(),
        overrides: Map::empty(),
        policy: LintFailurePolicy::Warning,
    }
}

/// The severity at which a finding of the rule `id` is reported.
pub open spec fn effective(options: OptionsView, id: Seq<char>, severity: LintSeverity) -> LintSeverity {
    if options.overrides.dom().contains(id) {
        options.overrides[id]
    } else {
        severity
    }
}

/// Which rules are reported, at which severity, and which findings fail a run.
#[derive(Clone, Debug, Eq, PartialEq)]
pub struct LintOptions {
    disabled_rules: TextMap,
    severity_overrides: TextMap,
    fail_on: LintFailurePolicy,
}

impl Default for LintOptions {
    fn default() -> (r: LintOptions)
        ensures
            r.wf(),
            r@ == default_options(),
    {
        let r = LintOptions {
            disabled_rules: TextMap::new(),
            severity_overrides: TextMap::new(),
            fail_on: LintFailurePolicy::default(),
        };
        assert(r@ =~= default_options());
        r
    }
}

impl LintOptions {
    pub closed spec fn wf(self) -> bool {
        &&& self.disabled_rules.wf()
        &&& self.severity_overrides.wf()
        &&& forall|id: Seq<char>| #[trigger]
            self.severity_overrides.map().dom().contains(id) ==> severity_named(
                self.severity_overrides.map()[id],
            ) is Some
    }

    pub closed spec fn view(&self) -> OptionsView {
        OptionsView {
            disabled: self.disabled_rules.map().dom(),
            overrides: self.severity_overrides.map().map_values(
                |word: Seq<char>| severity_named(word)->0,
            ),
            policy: self.fail_on,
        }
    }

    /// Stops reporting the rule `rule_id`.
    pub fn disable_rule(&mut self, rule_id: &str)
        requires
            old(self).wf(),
        ensures
            final(self).wf(),
            final(self)@ == (OptionsView {
                disabled: old(self)@.disabled.insert(rule_id@),
                ..old(self)@
            }),
    {
        let ghost before = self@;
        self.disabled_rules.insert(rule_id.to_owned(), String::new());
        assert(self@ =~= (OptionsView { disabled: before.disabled.insert(rule_id@), ..before }));
    }

    /// Reports the rule `rule_id` at `severity`.
    pub fn set_severity(&mut self, rule_id: &str, severity: LintSeverity)
        requires
            old(self).wf(),
        ensures
            final(self).wf(),
            final(self)@ == (OptionsView {
                overrides: old(self)@.overrides.insert(rule_id@, severity),
                ..old(self)@
            }),
    {
        let ghost before = self@;
        let ghost words = self.severity_overrides.map();
        self.severity_overrides.insert(rule_id.to_owned(), severity.as_str().to_owned());
        proof {
            lemma_severity_named(severity);
            assert(self.severity_overrides.map() == words.insert(rule_id@, severity_word(severity)));
            assert(self@.overrides =~= before.overrides.insert(rule_id@, severity));
        }
    }

    /// Sets which findings fail a run.
    pub fn set_fail_on(&mut self, policy: LintFailurePolicy)
        requires
            old(self).wf(),
        ensures
            final(self).wf(),
            final(self)@ == (OptionsView { policy, ..old(self)@ }),
    {
        self.fail_on = policy;
    }

    /// Which findings fail a run.
    pub fn fail_on(&self) -> (r: LintFailurePolicy)
        ensures
            r == self@.policy,
    {
        self.fail_on
    }

    /// Whether the rule `rule_id` is reported.
    pub fn is_enabled(&self, rule_id: &str) -> (r: bool)
        requires
            self.wf(),
        ensures
            r == !self@.disabled.contains(rule_id@),
    {
        self.disabled_rules.get(rule_id).is_none()
    }

    /// The severity at which a finding of the rule `rule_id` is reported.
    pub fn severity_for(&self, rule_id: &str, severity: LintSeverity) -> (r: LintSeverity)
        requires
            self.wf(),
        ensures
            r == effective(self@, rule_id@, severity),
    {
        match self.severity_overrides.get(rule_id) {
            Some(word) => match LintSeverity::from_str(word) {
                Ok(replacement) => replacement,
                Err(_) => severity,
            },
            None => severity,
        }
    }
}

} // verus!
