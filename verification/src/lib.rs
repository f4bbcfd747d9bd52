//! Conservative formatting and static analysis of BitBake metadata.
use vstd::prelude::*;

pub mod bitbake;
pub mod braces;
pub mod build_layers;
pub mod checks;
pub mod collections;
pub mod conditions;
pub mod config;
pub mod dependencies;
pub mod discovery;
pub mod environment;
pub mod execution_conditions;
pub mod findings;
pub mod fixes;
pub mod formatter;
pub mod idempotence;
pub mod inputs;
pub mod inventory;
pub mod keys;
pub mod layer_conditions;
pub mod layer_rules;
pub mod layers;
pub mod lexer;
pub mod lint;
pub mod listing;
pub mod locality;
pub mod lookup;
pub mod numbers;
pub mod operator;
pub mod orders;
pub mod output;
pub mod overrides;
pub mod paths;
pub mod places;
pub mod preservation;
pub mod project;
pub mod readings;
pub mod recipe_conditions;
pub mod recipes;
pub mod recovery;
pub mod reference_conditions;
pub mod references;
pub mod reparse;
pub mod report_text;
pub mod resolved_conditions;
pub mod rules;
pub mod run_conditions;
pub mod runs;
pub mod scanner;
pub mod session;
pub mod search_conditions;
pub mod selection;
pub mod semantic;
pub mod semantic_conditions;
pub mod semantic_lint;
pub mod statements;
pub mod syntax;
pub mod text;
pub mod tidying;
pub mod transaction;
pub mod transcripts;
pub mod tree;
pub mod values;
pub mod workspace;

pub use bitbake::{
    BitBakeError, BitBakeExecutionLimits, BitBakeExecutionStats, BitBakeInvocation, BitBakeOutput,
    BitBakePhase, BitBakePoll, BitBakeRunner, BitBakeStart, BitBakeTime, CommandState,
    InvocationKey, PhaseCounts, TimeLimits,
};
pub use build_layers::{BuildEnvironment, LayerFacts, MetadataTree};
pub use checks::{BodyDiagnostic, BodyDiagnosticKind};
pub use collections::TextMap;
pub use config::{Config, ConfigError, FileConfig, SemanticConfig, discover_config};
pub use dependencies::{WorkspaceDependency, WorkspaceIndex};
pub use discovery::{Input, InputEntry, InputProbe, resolve_inputs};
pub use environment::{SemanticEnvironment, SemanticPackageSummary};
pub use findings::{LintDiagnostic, LintFix};
pub use formatter::{
    FormatOptions, MetadataListLayout, format_syntax, format_syntax_with_options,
    format_with_options,
};
pub use inputs::{FormattedInput, SafetyOptions};
pub use inventory::{SemanticGraphEdge, SemanticProvider, SemanticRecipeVersion};
pub use keys::{
    OverrideKey, OverrideKeyError, OverrideOperation, parse_override_key,
    parse_override_key_with_overrides,
};
pub use lexer::{Lexer, Token, get_line_col};
pub use lint::{
    ExternalLintDiagnostic, LintFixError, apply_lint_fixes, lint, lint_syntax,
    lint_syntax_with_options, lint_syntax_with_workspace,
    lint_syntax_with_workspace_and_bodies, lint_with_options, lint_with_workspace,
};
pub use operator::AssignmentOperator;
pub use output::{
    CommandOutput, SemanticDiagnostic, SemanticDiagnosticPhase, SemanticDiagnosticStream,
    SemanticSeverity,
};
pub use overrides::{
    OverrideResolution, resolve_overrides, resolve_overrides_with_active,
};
pub use project::{
    BuildContext, BuildContextDiscoveryOptions, BuildContextError, BuildContextSource,
    discover_build_context, discover_build_context_with_options,
};
pub use rules::{LintFailurePolicy, LintOptions, LintRule, LintSeverity, lint_rules};
pub use semantic::{
    BitBakeTranscript, BuildDirFacts, GraphOutput, SemanticAnalysisOptions, SemanticBuildAnalysis,
    SemanticDependencyGraph, SemanticDryRun, SemanticError, SemanticOptions,
    SemanticRecipeInventory, SemanticReport, SemanticTargetResult, analyze_bitbake,
};
pub use semantic_lint::{lint_with_bitbake, semantic_lint_diagnostics};
pub use scanner::FunctionKind;
pub use session::{BitBakeSession, Query};
pub use syntax::DirectiveKeyword;
pub use transaction::{
    Action, Fault, FaultKind, Inspection, Phase, Reply, Transaction, WriteRequest,
};
pub use tree::{
    AssignmentSyntax, DirectiveSyntax, FormatError, FunctionSyntax, PythonDefinitionSyntax,
    SyntaxError, SyntaxKind, SyntaxNode, SyntaxTree, TextRange, parse,
};
pub use workspace::{
    PathTable, WorkspaceCandidate, WorkspaceClassContext, WorkspaceDependencyKind, WorkspaceFile,
    WorkspaceFileDirective, WorkspaceSearchScope,
};

verus! {

/// Formats the subset of BitBake syntax that can be changed safely.
///
/// Embedded shell and Python function bodies, Python `def` blocks, continuation
/// tails, comments, and unsupported top-level syntax are preserved
/// byte-for-byte. Structurally incomplete input produces an error instead of
/// partial output.
pub fn format(text: &str) -> (r: Result<String, FormatError>)
    requires
        text::byte_len(text@) < usize::MAX,
    ensures
        match syntax::nodes_of(text@) {
            Ok(_) => r matches Ok(output) && output@ == formatter::formatted(
                text@,
                formatter::default_format_options(),
            ),
            Err((i, fault)) => r matches Err(error) && error.reports(text@, i, fault),
        },
{
    match parse(text) {
        Ok(tree) => Ok(format_syntax(&tree)),
        Err(error) => Err(error),
    }
}

} // verus!
