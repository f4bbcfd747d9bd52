//! When a run is refused and when it goes on, and what its settings mean: over
//! the inputs and the settings alone.
use crate::bitbake;
use crate::bitbake::BitBakeExecutionLimits;
use crate::collections;
use crate::config;
use crate::config::FileConfigView;
use crate::findings::DiagnosticView;
use crate::inputs;
use crate::inputs::FormattedInput;
use crate::inputs::InputSize;
use crate::inputs::ReadInput;
use crate::inputs::SafetyOptions;
use crate::lint;
use crate::lint::LabeledView;
use crate::rules;
use crate::rules::LintFailurePolicy;
use crate::rules::LintSeverity;
use crate::rules::OptionsView;
use crate::runs;
use crate::runs::BitBakeLimitArgs;
use crate::syntax;
use crate::text;
use crate::transaction::RequestView;
use vstd::prelude::*;

verus! {

// ---------------------------------------------------------------------------
// Inputs
// ---------------------------------------------------------------------------
/// Whether every size is known.
pub open spec fn sizes_known(sizes: Seq<InputSize>) -> bool {
    forall|k: int| 0 <= k < sizes.len() ==> (#[trigger] sizes[k]).size is Ok
}

/// The sum of the sizes.
pub open spec fn size_sum(sizes: Seq<InputSize>) -> nat
    decreases sizes.len(),
{
    if sizes.len() == 0 {
        0
    } else {
        size_sum(sizes.drop_last()) + match sizes.last().size {
            Ok(size) => size as nat,
            Err(_) => 0,
        }
    }
}

proof fn lemma_size_sum_front(sizes: Seq<InputSize>)
    requires
        sizes.len() > 0,
    ensures
        size_sum(sizes) == size_sum(sizes.skip(1)) + match sizes[0].size {
            Ok(size) => size as nat,
            Err(_) => 0,
        },
    decreases sizes.len(),
{
    if sizes.len() > 1 {
        lemma_size_sum_front(sizes.drop_last());
        assert(sizes.skip(1).drop_last() =~= sizes.drop_last().skip(1));
        assert(sizes.skip(1).last() == sizes.last());
        assert(sizes.drop_last()[0] == sizes[0]);
    } else {
        assert(size_sum(sizes.skip(1)) == 0);
        assert(size_sum(sizes.drop_last()) == 0);
        assert(sizes.last() == sizes[0]);
    }
}

proof fn lemma_input_bytes(sizes: Seq<InputSize>, k: int, total: nat)
    requires
        0 <= k <= sizes.len(),
    ensures
        inputs::input_bytes(sizes, k, total) is Ok ==> sizes_known(sizes.skip(k))
            && inputs::input_bytes(sizes, k, total)->Ok_0 == total + size_sum(sizes.skip(k)),
        sizes_known(sizes.skip(k)) && total + size_sum(sizes.skip(k)) <= u64::MAX
            ==> inputs::input_bytes(sizes, k, total) is Ok,
    decreases sizes.len() - k,
{
    let rest = sizes.skip(k);
    if k < sizes.len() {
        lemma_size_sum_front(rest);
        assert(rest.skip(1) =~= sizes.skip(k + 1));
        assert(rest[0] == sizes[k]);
        match sizes[k].size {
            Ok(size) => {
                lemma_input_bytes(sizes, k + 1, total + size as nat);
                if sizes_known(sizes.skip(k + 1)) {
                    assert forall|j: int| 0 <= j < rest.len() implies (
                    #[trigger] rest[j]).size is Ok by {
                        if j > 0 {
                            assert(rest[j] == sizes.skip(k + 1)[j - 1]);
                        }
                    }
                }
                if sizes_known(rest) {
                    assert forall|j: int| 0 <= j < sizes.skip(k + 1).len() implies (
                    #[trigger] sizes.skip(k + 1)[j]).size is Ok by {
                        assert(sizes.skip(k + 1)[j] == rest[j + 1]);
                    }
                }
            },
            Err(_) => {
                assert(!(rest[0].size is Ok));
            },
        }
    } else {
        assert(rest.len() == 0);
    }
}

/// Inputs may be read exactly where both limits are above zero, the files are
/// no more than the one, every size is known, and all the sizes together are no more
/// than the other.
pub proof fn law_inputs_within_their_limits_are_read(
    count: nat,
    sizes: Seq<InputSize>,
    l: SafetyOptions,
)
    ensures
        inputs::input_limits_fault(count, sizes, l) is None <==> {
            &&& l.max_files > 0
            &&& l.max_bytes > 0
            &&& count <= l.max_files
            &&& sizes_known(sizes)
            &&& size_sum(sizes) <= l.max_bytes
        },
{
    lemma_input_bytes(sizes, 0, 0);
    assert(sizes.skip(0) =~= sizes);
}

/// The bytes of all the originals.
pub open spec fn original_sum(items: Seq<FormattedInput>) -> nat
    decreases items.len(),
{
    if items.len() == 0 {
        0
    } else {
        original_sum(items.drop_last()) + text::byte_len(items.last().original@)
    }
}

proof fn lemma_original_sum_front(items: Seq<FormattedInput>)
    requires
        items.len() > 0,
    ensures
        original_sum(items) == original_sum(items.skip(1)) + text::byte_len(items[0].original@),
    decreases items.len(),
{
    if items.len() > 1 {
        lemma_original_sum_front(items.drop_last());
        assert(items.skip(1).drop_last() =~= items.drop_last().skip(1));
        assert(items.skip(1).last() == items.last());
        assert(items.drop_last()[0] == items[0]);
    } else {
        assert(original_sum(items.skip(1)) == 0);
        assert(original_sum(items.drop_last()) == 0);
        assert(items.last() == items[0]);
    }
}

proof fn lemma_original_bytes(items: Seq<FormattedInput>, k: int, total: nat)
    requires
        0 <= k <= items.len(),
        total <= u64::MAX,
    ensures
        match inputs::original_bytes(items, k, total) {
            Some(bytes) => bytes == total + original_sum(items.skip(k)) && bytes <= u64::MAX,
            None => total + original_sum(items.skip(k)) > u64::MAX,
        },
    decreases items.len() - k,
{
    let rest = items.skip(k);
    if k < items.len() {
        lemma_original_sum_front(rest);
        assert(rest.skip(1) =~= items.skip(k + 1));
        assert(rest[0] == items[k]);
        if total + text::byte_len(items[k].original@) <= u64::MAX {
            lemma_original_bytes(items, k + 1, total + text::byte_len(items[k].original@));
        }
    } else {
        assert(rest.len() == 0);
    }
}

/// Texts that were read may be used exactly where they are no more than the one
/// limit and have together no more bytes than the other.
pub proof fn law_texts_within_their_limits_are_used(items: Seq<FormattedInput>, l: SafetyOptions)
    ensures
        inputs::formatted_limits_fault(items, l) is None <==> items.len() <= l.max_files
            && original_sum(items) <= l.max_bytes,
{
    lemma_original_bytes(items, 0, 0);
    assert(items.skip(0) =~= items);
}

proof fn lemma_stdin_count(paths: Seq<Seq<char>>, k: int)
    requires
        0 <= k <= paths.len(),
    ensures
        inputs::stdin_count(paths, k) <= paths.len() - k,
        inputs::stdin_count(paths, k) == 0 <==> forall|i: int|
            k <= i < paths.len() ==> #[trigger] paths[i] != "-"@,
    decreases paths.len() - k,
{
    if k < paths.len() {
        lemma_stdin_count(paths, k + 1);
    }
}

/// Standard input is read exactly where `-` is the only path that is given;
/// files are read exactly where it is not given. Everything else is refused.
pub proof fn law_standard_input_stands_alone(paths: Seq<Seq<char>>)
    ensures
        inputs::stdin_choice(paths) == Ok::<bool, Seq<char>>(true) <==> paths == seq!["-"@],
        inputs::stdin_choice(paths) == Ok::<bool, Seq<char>>(false) <==> !paths.contains("-"@),
        inputs::stdin_choice(paths) is Err <==> paths.contains("-"@) && paths.len() > 1,
{
    lemma_stdin_count(paths, 0);
    if paths.len() == 1 {
        assert(inputs::stdin_count(paths, 1) == 0);
        assert(paths =~= seq![paths[0]]);
        assert(paths.contains(paths[0]));
        assert(seq!["-"@][0] == "-"@);
    }
    if inputs::stdin_count(paths, 0) == 0 && paths == seq!["-"@] {
        assert(paths[0] == "-"@);
    }
    if !paths.contains("-"@) {
        assert forall|i: int| 0 <= i < paths.len() implies #[trigger] paths[i] != "-"@ by {
            assert(paths.contains(paths[i]));
        }
    }
}

/// Whether an input was read and can be parsed.
pub open spec fn readable(input: ReadInput) -> bool {
    input.text matches Ok(text) && syntax::nodes_of(text@) is Ok
}

proof fn lemma_format_faults(items: Seq<ReadInput>, k: int)
    requires
        0 <= k <= items.len(),
    ensures
        inputs::format_faults(items, k).len() <= items.len() - k,
        inputs::format_faults(items, k).len() == 0 <==> forall|i: int|
            k <= i < items.len() ==> readable(#[trigger] items[i]),
        inputs::format_faults(items, k).len() == items.len() - k <==> forall|i: int|
            k <= i < items.len() ==> !readable(#[trigger] items[i]),
    decreases items.len() - k,
{
    if k < items.len() {
        lemma_format_faults(items, k + 1);
        assert(readable(items[k]) <==> inputs::format_fault(items[k]) is None);
    }
}

/// Nothing is wrong with some inputs exactly where each of them was read and can
/// be parsed, and each that was not, or cannot be, is reported.
pub proof fn law_unusable_inputs_are_reported(items: Seq<ReadInput>)
    ensures
        inputs::format_faults(items, 0).len() == 0 <==> forall|i: int|
            0 <= i < items.len() ==> readable(#[trigger] items[i]),
        forall|i: int|
            0 <= i < items.len() && !readable(#[trigger] items[i]) ==> inputs::format_fault(
                items[i],
            ) is Some && inputs::format_faults(items, 0).contains(
                inputs::format_fault(items[i])->0,
            ),
{
    lemma_format_faults(items, 0);
    assert forall|i: int|
        0 <= i < items.len() && !readable(
            #[trigger] items[i],
        ) implies inputs::format_fault(items[i]) is Some && inputs::format_faults(
        items,
        0,
    ).contains(inputs::format_fault(items[i])->0) by {
        lemma_fault_reported(items, 0, i);
    }
}

proof fn lemma_fault_reported(items: Seq<ReadInput>, k: int, i: int)
    requires
        0 <= k <= i < items.len(),
        !readable(items[i]),
    ensures
        inputs::format_fault(items[i]) is Some,
        inputs::format_faults(items, k).contains(inputs::format_fault(items[i])->0),
    decreases items.len() - k,
{
    let all = inputs::format_faults(items, k);
    if k < i {
        lemma_fault_reported(items, k + 1, i);
        let rest = inputs::format_faults(items, k + 1);
        let fault = inputs::format_fault(items[i])->0;
        let at = choose|at: int| 0 <= at < rest.len() && rest[at] == fault;
        if inputs::format_fault(items[k]) is Some {
            assert(all[at + 1] == fault);
        } else {
            assert(all[at] == fault);
        }
    } else {
        assert(all[0] == inputs::format_fault(items[i])->0);
    }
}

/// The write of the formatted text of an input.
pub open spec fn write_of(input: FormattedInput) -> RequestView {
    RequestView {
        path: input.path->0@,
        original: input.original@,
        replacement: input.formatted@,
    }
}

proof fn lemma_writes(items: Seq<FormattedInput>, k: int, w: RequestView)
    requires
        0 <= k <= items.len(),
    ensures
        inputs::writes_from(items, k).contains(w) <==> exists|i: int|
            k <= i < items.len() && (#[trigger] items[i]).path is Some && w == write_of(items[i]),
    decreases items.len() - k,
{
    if k < items.len() {
        lemma_writes(items, k + 1, w);
        let rest = inputs::writes_from(items, k + 1);
        let all = inputs::writes_from(items, k);
        if items[k].path is Some {
            assert(all[0] == write_of(items[k]));
            if rest.contains(w) {
                let at = choose|at: int| 0 <= at < rest.len() && rest[at] == w;
                assert(all[at + 1] == w);
            }
            if all.contains(w) {
                let at = choose|at: int| 0 <= at < all.len() && all[at] == w;
                if at > 0 {
                    assert(rest[at - 1] == w);
                }
            }
        }
    }
}

/// What formatting writes is, for each input that is a file, its formatted text
/// in place of its original at its own path, and nothing else.
pub proof fn law_formatted_files_are_written(items: Seq<FormattedInput>, w: RequestView)
    ensures
        inputs::writes_from(items, 0).contains(w) <==> exists|i: int|
            0 <= i < items.len() && (#[trigger] items[i]).path is Some && items[i].path->0@
                == w.path && items[i].original@ == w.original && items[i].formatted@
                == w.replacement,
{
    lemma_writes(items, 0, w);
    if exists|i: int|
        0 <= i < items.len() && (#[trigger] items[i]).path is Some && items[i].path->0@ == w.path
            && items[i].original@ == w.original && items[i].formatted@ == w.replacement {
        let i = choose|i: int|
            0 <= i < items.len() && (#[trigger] items[i]).path is Some && items[i].path->0@
                == w.path && items[i].original@ == w.original && items[i].formatted@
                == w.replacement;
        assert(w == write_of(items[i]));
    }
}

proof fn lemma_changed_lines(word: Seq<char>, items: Seq<FormattedInput>, k: int, line: Seq<char>)
    requires
        0 <= k <= items.len(),
    ensures
        inputs::changed_lines(word, items, k).contains(line) <==> exists|i: int|
            k <= i < items.len() && (#[trigger] items[i]).original@ != items[i].formatted@ && line
                == word + items[i].label@,
    decreases items.len() - k,
{
    if k < items.len() {
        lemma_changed_lines(word, items, k + 1, line);
        let rest = inputs::changed_lines(word, items, k + 1);
        let all = inputs::changed_lines(word, items, k);
        if items[k].original@ != items[k].formatted@ {
            reveal_strlit("");
            assert(word + items[k].label@ + ""@ =~= word + items[k].label@);
            assert(all[0] == word + items[k].label@);
            if rest.contains(line) {
                let at = choose|at: int| 0 <= at < rest.len() && rest[at] == line;
                assert(all[at + 1] == line);
            }
            if all.contains(line) {
                let at = choose|at: int| 0 <= at < all.len() && all[at] == line;
                if at > 0 {
                    assert(rest[at - 1] == line);
                }
            }
        }
    }
}

/// The inputs that are named as changed are those whose formatted text is not
/// their original; where none is named, every text stays as it is.
pub proof fn law_changed_inputs_are_named(
    word: Seq<char>,
    items: Seq<FormattedInput>,
    line: Seq<char>,
)
    ensures
        inputs::changed_lines(word, items, 0).contains(line) <==> exists|i: int|
            0 <= i < items.len() && (#[trigger] items[i]).original@ != items[i].formatted@ && line
                == word + items[i].label@,
        inputs::changed_lines(word, items, 0).len() == 0 <==> forall|i: int|
            0 <= i < items.len() ==> (#[trigger] items[i]).original@ == items[i].formatted@,
{
    lemma_changed_lines(word, items, 0, line);
    let all = inputs::changed_lines(word, items, 0);
    if all.len() > 0 {
        assert(all.contains(all[0]));
        lemma_changed_lines(word, items, 0, all[0]);
    }
    if exists|i: int|
        0 <= i < items.len() && (#[trigger] items[i]).original@ != items[i].formatted@ {
        let i = choose|i: int|
            0 <= i < items.len() && (#[trigger] items[i]).original@ != items[i].formatted@;
        lemma_changed_lines(word, items, 0, word + items[i].label@);
        assert(all.contains(word + items[i].label@));
    }
}

// ---------------------------------------------------------------------------
// Severities and policies
// ---------------------------------------------------------------------------
/// How severe a finding is.
pub open spec fn severity_rank(severity: LintSeverity) -> int {
    match severity {
        LintSeverity::Info => 0,
        LintSeverity::Warning => 1,
        LintSeverity::Error => 2,
    }
}

/// A run fails on the findings of the severity that its policy names and on the
/// more severe ones, on no others, and on none where the policy is `never`.
pub proof fn law_policies_block_from_their_severity(
    policy: LintFailurePolicy,
    named: LintSeverity,
    severity: LintSeverity,
)
    ensures
        rules::policy_word(policy) == rules::severity_word(named) ==> (rules::blocks(
            policy,
            severity,
        ) <==> severity_rank(severity) >= severity_rank(named)),
        rules::policy_word(policy) == "never"@ ==> !rules::blocks(policy, severity),
{
    reveal_strlit("info");
    reveal_strlit("warning");
    reveal_strlit("error");
    reveal_strlit("never");
    assert("info"@.len() == 4 && "warning"@.len() == 7 && "error"@.len() == 5 && "never"@.len()
        == 5);
    assert("error"@[0] == 'e' && "never"@[0] == 'n');
}

/// Whether `d` is `x` but for its severity.
pub open spec fn same_finding(x: LabeledView, d: LabeledView) -> bool {
    &&& x.label == d.label
    &&& x.diagnostic == (DiagnosticView { severity: x.diagnostic.severity, ..d.diagnostic })
}

proof fn lemma_selected(items: Seq<LabeledView>, options: OptionsView, k: int, d: LabeledView)
    requires
        0 <= k <= items.len(),
    ensures
        lint::selected_from(items, options, k).contains(d) <==> exists|i: int|
            k <= i < items.len() && !options.disabled.contains(
                (#[trigger] items[i]).diagnostic.rule_id,
            ) && d == lint::adjusted_view(options, items[i]),
    decreases items.len() - k,
{
    if k < items.len() {
        lemma_selected(items, options, k + 1, d);
        let rest = lint::selected_from(items, options, k + 1);
        let all = lint::selected_from(items, options, k);
        if !options.disabled.contains(items[k].diagnostic.rule_id) {
            assert(all[0] == lint::adjusted_view(options, items[k]));
            if rest.contains(d) {
                let at = choose|at: int| 0 <= at < rest.len() && rest[at] == d;
                assert(all[at + 1] == d);
            }
            if all.contains(d) {
                let at = choose|at: int| 0 <= at < all.len() && all[at] == d;
                if at > 0 {
                    assert(rest[at - 1] == d);
                }
            }
        }
    }
}

/// Whether a finding `x` is reported as `d`: its rule is not disabled, and `d`
/// has the severity that is set for its rule, or its own where none is set.
pub open spec fn reported_as(options: OptionsView, x: LabeledView, d: LabeledView) -> bool {
    let id = x.diagnostic.rule_id;
    &&& same_finding(x, d)
    &&& !options.disabled.contains(id)
    &&& options.overrides.dom().contains(id) ==> d.diagnostic.severity == options.overrides[id]
    &&& !options.overrides.dom().contains(id) ==> d.diagnostic.severity == x.diagnostic.severity
}

/// A report holds a diagnostic exactly where it is that of a finding whose rule
/// is not disabled, with the severity that is set for the rule, or with its own where
/// none is set.
pub proof fn law_reports_follow_the_settings(
    items: Seq<LabeledView>,
    options: OptionsView,
    d: LabeledView,
)
    ensures
        lint::arranged_from(items, options, 0).contains(d) <==> exists|i: int|
            0 <= i < items.len() && reported_as(options, #[trigger] items[i], d),
{
    let arranged = lint::arranged_from(items, options, 0);
    let selected = lint::selected_from(items, options, 0);
    lint::law_reports_are_complete_and_ordered(items, options, 0);
    vstd::seq_lib::to_multiset_contains(arranged, d);
    vstd::seq_lib::to_multiset_contains(selected, d);
    lemma_selected(items, options, 0, d);
    assert forall|i: int| 0 <= i < items.len() implies (reported_as(
        options,
        #[trigger] items[i],
        d,
    ) <==> !options.disabled.contains(items[i].diagnostic.rule_id) && d == lint::adjusted_view(
        options,
        items[i],
    )) by {
        let x = items[i];
        let a = lint::adjusted_view(options, x);
        if reported_as(options, x, d) {
            assert(d.diagnostic == a.diagnostic);
        }
    }
}

// ---------------------------------------------------------------------------
// Configurations
// ---------------------------------------------------------------------------
proof fn lemma_disable_fault(ids: Seq<Seq<char>>, k: int)
    requires
        0 <= k <= ids.len(),
    ensures
        config::disable_fault(ids, k) is None <==> forall|i: int|
            k <= i < ids.len() ==> config::rule_ids().contains(#[trigger] ids[i]),
    decreases ids.len() - k,
{
    if k < ids.len() {
        lemma_disable_fault(ids, k + 1);
    }
}

/// Whether a setting gives a rule that there is a severity that there is.
pub open spec fn severity_setting(setting: (Seq<char>, Seq<char>)) -> bool {
    &&& config::rule_ids().contains(setting.0)
    &&& setting.1 == "info"@ || setting.1 == "warning"@ || setting.1 == "error"@
}

proof fn lemma_severity_fault(items: Seq<(Seq<char>, Seq<char>)>, k: int)
    requires
        0 <= k <= items.len(),
    ensures
        config::severity_fault(items, k) is None <==> forall|i: int|
            k <= i < items.len() ==> severity_setting(#[trigger] items[i]),
    decreases items.len() - k,
{
    if k < items.len() {
        lemma_severity_fault(items, k + 1);
    }
}

proof fn lemma_exclude_fault(patterns: Seq<Seq<char>>, k: int)
    requires
        0 <= k <= patterns.len(),
    ensures
        config::exclude_fault(patterns, k) is None <==> forall|i: int|
            k <= i < patterns.len() ==> (#[trigger] patterns[i]).len() > 0 && config::glob_fault(
                patterns[i],
            ) is None,
    decreases patterns.len() - k,
{
    if k < patterns.len() {
        lemma_exclude_fault(patterns, k + 1);
    }
}

/// Whether limits can be kept: none is zero, a command has no more time than all
/// of them, and the times and the sizes can be counted.
pub open spec fn limits_kept(l: BitBakeExecutionLimits) -> bool {
    &&& 0 < l.command_timeout <= l.total_timeout
    &&& l.total_timeout / 1_000_000 <= u64::MAX
    &&& 0 < l.max_stdout_bytes <= usize::MAX
    &&& 0 < l.max_stderr_bytes <= usize::MAX
    &&& l.max_commands > 0
    &&& l.max_recipe_queries > 0
}

/// A configuration file whose patterns can be matched together is accepted
/// exactly where it disables rules that there are, gives rules that there are one of
/// the three severities, names one of the four policies if it names one, has only
/// patterns that are patterns, and limits that can be kept.
pub proof fn law_settings_that_are_accepted(file: FileConfigView)
    ensures
        config::file_fault(file, None) is None <==> {
            &&& forall|i: int|
                0 <= i < file.disable.len() ==> config::rule_ids().contains(
                    #[trigger] file.disable[i],
                )
            &&& forall|i: int|
                0 <= i < file.severity.len() ==> severity_setting(#[trigger] file.severity[i])
            &&& file.fail_on matches Some(word) ==> word == "info"@ || word == "warning"@ || word
                == "error"@ || word == "never"@
            &&& forall|i: int|
                0 <= i < file.exclude.len() ==> (#[trigger] file.exclude[i]).len() > 0
                    && config::glob_fault(file.exclude[i]) is None
            &&& limits_kept(runs::limits_of(bitbake::default_limits(), file.limits))
        },
{
    lemma_disable_fault(file.disable, 0);
    lemma_severity_fault(file.severity, 0);
    lemma_exclude_fault(file.exclude, 0);
    let l = runs::limits_of(bitbake::default_limits(), file.limits);
    if l.command_timeout <= l.total_timeout {
        assert(l.command_timeout / 1_000_000 <= l.total_timeout / 1_000_000);
    }
}

/// Whether `value` is what is given, or `configured` where nothing is.
pub open spec fn given_or<A>(value: A, given: Option<A>, configured: A) -> bool {
    &&& given is Some ==> Some(value) == given
    &&& given is None ==> value == configured
}

/// A limit that is given holds, and the configured one holds where none is
/// given, each for itself; times are given in whole seconds.
pub proof fn law_given_limits_hold(
    configured: BitBakeExecutionLimits,
    given: BitBakeLimitArgs,
    safety: SafetyOptions,
    max_files: Option<usize>,
    max_bytes: Option<u64>,
)
    requires
        configured.command_timeout % 1_000_000_000 == 0,
        configured.total_timeout % 1_000_000_000 == 0,
    ensures
        ({
            let l = runs::limits_of(configured, given);
            &&& given.command_timeout_seconds matches Some(s) ==> l.command_timeout == s
                * 1_000_000_000
            &&& given.command_timeout_seconds is None ==> l.command_timeout
                == configured.command_timeout
            &&& given.total_timeout_seconds matches Some(s) ==> l.total_timeout == s
                * 1_000_000_000
            &&& given.total_timeout_seconds is None ==> l.total_timeout == configured.total_timeout
            &&& given_or(l.max_stdout_bytes, given.max_stdout_bytes, configured.max_stdout_bytes)
            &&& given_or(l.max_stderr_bytes, given.max_stderr_bytes, configured.max_stderr_bytes)
            &&& given_or(l.max_commands, given.max_commands, configured.max_commands)
            &&& given_or(
                l.max_recipe_queries,
                given.max_recipe_queries,
                configured.max_recipe_queries,
            )
            &&& given_or(
                inputs::safety_of(safety, max_files, max_bytes).max_files,
                max_files,
                safety.max_files,
            )
            &&& given_or(
                inputs::safety_of(safety, max_files, max_bytes).max_bytes,
                max_bytes,
                safety.max_bytes,
            )
        }),
{
    let c = configured.command_timeout as int;
    let d = configured.total_timeout as int;
    assert((c / 1_000_000_000) * 1_000_000_000 == c) by {
        vstd::arithmetic::div_mod::lemma_fundamental_div_mod(c, 1_000_000_000);
    }
    assert((d / 1_000_000_000) * 1_000_000_000 == d) by {
        vstd::arithmetic::div_mod::lemma_fundamental_div_mod(d, 1_000_000_000);
    }
}

proof fn lemma_pairs_map(pairs: Seq<(Seq<char>, Seq<char>)>, i: int)
    requires
        0 <= i < pairs.len(),
        forall|j: int| i < j < pairs.len() ==> (#[trigger] pairs[j]).0 != pairs[i].0,
    ensures
        collections::pairs_map(pairs).dom().contains(pairs[i].0),
        collections::pairs_map(pairs)[pairs[i].0] == pairs[i].1,
    decreases pairs.len(),
{
    if i < pairs.len() - 1 {
        assert(pairs.drop_last()[i] == pairs[i]);
        assert(pairs.last().0 != pairs[i].0) by {
            assert(pairs[pairs.len() - 1].0 != pairs[i].0);
        }
        lemma_pairs_map(pairs.drop_last(), i);
    }
}

/// What a configuration file says holds: a rule that it disables is not
/// reported, a severity that it gives a rule is the one that the rule's findings are
/// reported at, and the policy that it names is the one that fails the run.
pub proof fn law_settings_hold(file: FileConfigView, base_dir: Seq<char>, i: int, severity: LintSeverity)
    ensures
        0 <= i < file.disable.len() ==> config::config_of(
            file,
            base_dir,
        ).lint.disabled.contains(file.disable[i]),
        0 <= i < file.severity.len() && file.severity[i].1 == rules::severity_word(severity) && (
        forall|j: int|
            i < j < file.severity.len() ==> (#[trigger] file.severity[j]).0 != file.severity[i].0)
            ==> rules::effective(
            config::config_of(file, base_dir).lint,
            file.severity[i].0,
            LintSeverity::Info,
        ) == severity && rules::effective(
            config::config_of(file, base_dir).lint,
            file.severity[i].0,
            LintSeverity::Error,
        ) == severity,
        forall|policy: LintFailurePolicy|
            file.fail_on == Some(#[trigger] rules::policy_word(policy)) ==> config::config_of(
                file,
                base_dir,
            ).lint.policy == policy,
        file.fail_on is None ==> config::config_of(file, base_dir).lint.policy
            == LintFailurePolicy::Warning,
{
    if 0 <= i < file.disable.len() {
        assert(file.disable.contains(file.disable[i]));
    }
    if 0 <= i < file.severity.len() && file.severity[i].1 == rules::severity_word(severity) && (
    forall|j: int|
        i < j < file.severity.len() ==> (#[trigger] file.severity[j]).0 != file.severity[i].0) {
        lemma_pairs_map(file.severity, i);
        rules::law_names_are_read_back(severity, LintFailurePolicy::Never);
    }
    assert forall|policy: LintFailurePolicy|
        file.fail_on == Some(#[trigger] rules::policy_word(policy)) implies config::config_of(
        file,
        base_dir,
    ).lint.policy == policy by {
        rules::law_names_are_read_back(LintSeverity::Info, policy);
    }
}

proof fn lemma_first_present(items: Seq<Seq<char>>, files: Seq<Seq<char>>, k: int)
    requires
        0 <= k <= items.len(),
    ensures
        match config::first_present(items, files, k) {
            Some(path) => files.contains(path) && exists|i: int|
                k <= i < items.len() && #[trigger] items[i] == path && forall|j: int|
                    k <= j < i ==> !files.contains(#[trigger] items[j]),
            None => forall|j: int| k <= j < items.len() ==> !files.contains(#[trigger] items[j]),
        },
    decreases items.len() - k,
{
    if k < items.len() && !files.contains(items[k]) {
        lemma_first_present(items, files, k + 1);
    }
}

/// The nearest configuration file that is there is the one that is used: the
/// first of the places to look at, and none only where none of them holds a file.
pub proof fn law_nearest_configuration_is_used(items: Seq<Seq<char>>, files: Seq<Seq<char>>, i: int)
    requires
        0 <= i < items.len(),
    ensures
        files.contains(items[i]) && (forall|j: int|
            0 <= j < i ==> !files.contains(#[trigger] items[j])) ==> config::first_present(
            items,
            files,
            0,
        ) == Some(items[i]),
        config::first_present(items, files, 0) is None ==> !files.contains(items[i]),
{
    lemma_first_present(items, files, 0);
}

} // verus!
