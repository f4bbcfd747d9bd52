//! When the rules on references to other metadata speak.
use crate::checks;
use crate::conditions;
use crate::dependencies;
use crate::recipe_conditions;
use crate::references;
use crate::workspace;
use crate::findings::FindingView;
use crate::references::PlaceView;
use crate::rules::RULE_AMBIGUOUS_INHERIT;
use crate::rules::RULE_AMBIGUOUS_REQUIRE;
use crate::rules::RULE_DEPENDENCY_CYCLE;
use crate::rules::RULE_UNRESOLVED_INHERIT;
use crate::rules::RULE_UNRESOLVED_REQUIRE;
use crate::statements::StatementView;
use crate::syntax::DirectiveKeyword;
use crate::workspace::CandidateView;
use crate::workspace::WorkspaceClassContext;
use crate::workspace::WorkspaceDependencyKind;
use crate::workspace::WorkspaceFileDirective;
use vstd::prelude::*;

verus! {

// ---------------------------------------------------------------------------
// Conditions
// ---------------------------------------------------------------------------
/// Whether another candidate is ranked like the first one.
pub open spec fn tied(found: Seq<CandidateView>) -> bool {
    exists|i: int|
        1 <= i < found.len() && (#[trigger] found[i]).priority == found[0].priority && found[i].scope
            == found[0].scope
}

/// The files that a directive may mean by `name`, the best first.
pub open spec fn files_named(
    place: PlaceView,
    name: Seq<char>,
    directive: WorkspaceFileDirective,
) -> Seq<CandidateView> {
    workspace::file_candidates_of(place.index.core, place.path, name, directive)
}

/// The definitions of a class in a namespace, the best first.
pub open spec fn classes_named(
    place: PlaceView,
    class: Seq<char>,
    context: WorkspaceClassContext,
) -> Seq<CandidateView> {
    workspace::class_candidates_of(place.index.core, class, context)
}

/// Word `i` of a directive.
pub open spec fn directive_word(
    s: StatementView,
    keyword: DirectiveKeyword,
    i: int,
    w: (int, Seq<char>),
) -> bool {
    s matches StatementView::Directive(d) && d.keyword == keyword && 0 <= i < checks::argument_words(
        d,
        true,
    ).len() && checks::argument_words(d, true)[i] == w
}

/// A word that names a class to inherit, and the namespaces in which it is
/// looked up: those of the file for a directive, the global one for a variable
/// that lists classes for all recipes.
pub open spec fn inherit_word(
    place: PlaceView,
    s: StatementView,
    i: int,
    w: (int, Seq<char>),
    contexts: Seq<WorkspaceClassContext>,
    kind: WorkspaceDependencyKind,
) -> bool {
    ||| directive_word(s, DirectiveKeyword::Inherit, i, w) && contexts == references::place_contexts(
        place,
    ) && kind == WorkspaceDependencyKind::Inherit
    ||| directive_word(s, DirectiveKeyword::InheritDefer, i, w) && contexts
        == references::place_contexts(place) && kind == WorkspaceDependencyKind::InheritDefer
    ||| s matches StatementView::Assignment(a) && workspace::global_class_kind(a.name) == Some(kind)
        && references::place_contexts(place).contains(WorkspaceClassContext::Global) && contexts
        == seq![WorkspaceClassContext::Global] && 0 <= i < checks::assigned_words(a).len()
        && checks::assigned_words(a)[i] == w
}

/// A class that no namespace defines.
pub open spec fn undefined_class(
    place: PlaceView,
    class: Seq<char>,
    contexts: Seq<WorkspaceClassContext>,
) -> bool {
    forall|c: int|
        0 <= c < contexts.len() ==> classes_named(place, class, #[trigger] contexts[c]).len() == 0
}

/// A class that some namespace defines and that every namespace which defines
/// it defines several times with the same rank.
pub open spec fn ambiguous_class(
    place: PlaceView,
    class: Seq<char>,
    contexts: Seq<WorkspaceClassContext>,
) -> bool {
    !undefined_class(place, class, contexts) && forall|c: int|
        0 <= c < contexts.len() && classes_named(place, class, #[trigger] contexts[c]).len() > 0
            ==> tied(classes_named(place, class, contexts[c]))
}

/// Whether namespace `c` is the one a class is taken from: the first that
/// defines it clearly, or where none does the first that defines it.
pub open spec fn chosen(
    place: PlaceView,
    class: Seq<char>,
    contexts: Seq<WorkspaceClassContext>,
    c: int,
) -> bool {
    &&& 0 <= c < contexts.len()
    &&& classes_named(place, class, contexts[c]).len() > 0
    &&& if ambiguous_class(place, class, contexts) {
        forall|b: int|
            0 <= b < c ==> classes_named(place, class, #[trigger] contexts[b]).len() == 0
    } else {
        !tied(classes_named(place, class, contexts[c])) && forall|b: int|
            0 <= b < c ==> classes_named(place, class, #[trigger] contexts[b]).len() == 0 || tied(
                classes_named(place, class, contexts[b]),
            )
    }
}

/// Whether a dependency of the file on a candidate closes a cycle.
pub open spec fn closes_cycle(
    place: PlaceView,
    candidate: CandidateView,
    context: WorkspaceClassContext,
) -> bool {
    dependencies::cycle_of(place.index, place.path, candidate.path, context) is Some
}

/// A required file that is not found.
pub open spec fn unresolved_require(place: PlaceView, s: StatementView, i: int, w: (int, Seq<char>)) -> bool {
    directive_word(s, DirectiveKeyword::Require, i, w) && files_named(
        place,
        w.1,
        WorkspaceFileDirective::Require,
    ).len() == 0
}

/// A required file with several candidates of the same rank.
pub open spec fn ambiguous_require(place: PlaceView, s: StatementView, i: int, w: (int, Seq<char>)) -> bool {
    directive_word(s, DirectiveKeyword::Require, i, w) && tied(
        files_named(place, w.1, WorkspaceFileDirective::Require),
    )
}

/// A word whose dependency closes a cycle.
pub open spec fn cyclic_word(place: PlaceView, s: StatementView, i: int, w: (int, Seq<char>)) -> bool {
    let own = references::place_contexts(place)[0];
    let required = files_named(place, w.1, WorkspaceFileDirective::Require);
    let included = files_named(place, w.1, WorkspaceFileDirective::Include);
    let all = files_named(place, w.1, WorkspaceFileDirective::IncludeAll);
    ||| directive_word(s, DirectiveKeyword::Require, i, w) && required.len() > 0 && closes_cycle(
        place,
        required[0],
        own,
    )
    ||| directive_word(s, DirectiveKeyword::Include, i, w) && included.len() > 0 && closes_cycle(
        place,
        included[0],
        own,
    )
    ||| directive_word(s, DirectiveKeyword::IncludeAll, i, w) && exists|j: int|
        0 <= j < all.len() && closes_cycle(place, #[trigger] all[j], own)
    ||| exists|contexts: Seq<WorkspaceClassContext>, kind: WorkspaceDependencyKind, c: int| #[trigger]
        cyclic_class(place, s, i, w, contexts, kind, c)
}

/// A class whose chosen definition closes a cycle.
pub open spec fn cyclic_class(
    place: PlaceView,
    s: StatementView,
    i: int,
    w: (int, Seq<char>),
    contexts: Seq<WorkspaceClassContext>,
    kind: WorkspaceDependencyKind,
    c: int,
) -> bool {
    inherit_word(place, s, i, w, contexts, kind) && chosen(place, w.1, contexts, c) && closes_cycle(
        place,
        classes_named(place, w.1, contexts[c])[0],
        contexts[c],
    )
}

// ---------------------------------------------------------------------------
// Candidates
// ---------------------------------------------------------------------------
proof fn lemma_equals(found: Seq<CandidateView>, k: int)
    requires
        1 <= k <= found.len(),
    ensures
        references::equals_from(found, k).len() > 0 <==> exists|i: int|
            k <= i < found.len() && (#[trigger] found[i]).priority == found[0].priority
                && found[i].scope == found[0].scope,
    decreases found.len() - k,
{
    if k < found.len() {
        lemma_equals(found, k + 1);
    }
}

proof fn lemma_tied(found: Seq<CandidateView>)
    ensures
        references::ambiguity(found) is Some <==> tied(found),
{
    if found.len() > 0 {
        lemma_equals(found, 1);
        assert(references::equals_from(found, 0) =~= seq![found[0].path] + references::equals_from(
            found,
            1,
        ));
    }
}

proof fn lemma_cycle(
    place: PlaceView,
    at: int,
    context: WorkspaceClassContext,
    kind: WorkspaceDependencyKind,
    c: CandidateView,
    rule: usize,
    p: int,
)
    ensures
        conditions::found_at(references::cycle_findings(place, at, context, kind, c), rule, p) <==> rule
            == RULE_DEPENDENCY_CYCLE && p == at && closes_cycle(place, c, context),
{
    let found = references::cycle_findings(place, at, context, kind, c);
    if found.len() > 0 {
        conditions::lemma_found_one(found[0], rule, p);
        assert(found =~= seq![found[0]]);
    } else {
        conditions::lemma_found_none(rule, p);
        assert(found =~= Seq::empty());
    }
}

proof fn lemma_require(
    place: PlaceView,
    w: (int, Seq<char>),
    context: WorkspaceClassContext,
    rule: usize,
    at: int,
)
    ensures
        ({
            let found = files_named(place, w.1, WorkspaceFileDirective::Require);
            conditions::found_at(references::require_findings(place, w, context), rule, at) <==> at == w.0 && {
                ||| rule == RULE_UNRESOLVED_REQUIRE && found.len() == 0
                ||| rule == RULE_AMBIGUOUS_REQUIRE && tied(found)
                ||| rule == RULE_DEPENDENCY_CYCLE && found.len() > 0 && closes_cycle(
                    place,
                    found[0],
                    context,
                )
            }
        }),
{
    let found = files_named(place, w.1, WorkspaceFileDirective::Require);
    let all = references::require_findings(place, w, context);
    lemma_tied(found);
    if found.len() == 0 {
        conditions::lemma_found_one(all[0], rule, at);
        assert(all =~= seq![all[0]]);
    } else {
        let cycle = references::cycle_findings(
            place,
            w.0,
            context,
            WorkspaceDependencyKind::Require,
            found[0],
        );
        lemma_cycle(
            place,
            w.0,
            context,
            WorkspaceDependencyKind::Require,
            found[0],
            rule,
            at,
        );
        if tied(found) {
            let f = all[0];
            assert(all =~= seq![f] + cycle);
            conditions::lemma_found_add(seq![f], cycle, rule, at);
            conditions::lemma_found_one(f, rule, at);
        } else {
            assert(all =~= cycle);
        }
    }
}

spec fn require_of(place: PlaceView, context: WorkspaceClassContext) -> spec_fn((int, Seq<char>)) -> Seq<
    FindingView,
> {
    |w: (int, Seq<char>)| references::require_findings(place, w, context)
}

proof fn lemma_requires(
    place: PlaceView,
    words: Seq<(int, Seq<char>)>,
    k: int,
    context: WorkspaceClassContext,
)
    requires
        0 <= k <= words.len(),
    ensures
        references::requires_from(place, words, k, context) == recipe_conditions::gathered(
            words,
            k,
            require_of(place, context),
        ),
    decreases words.len() - k,
{
    if k < words.len() {
        lemma_requires(place, words, k + 1, context);
    }
}

spec fn include_of(place: PlaceView, context: WorkspaceClassContext, all: bool) -> spec_fn(
    (int, Seq<char>),
) -> Seq<FindingView> {
    |w: (int, Seq<char>)| references::include_findings(place, w, context, all)
}

proof fn lemma_includes(
    place: PlaceView,
    words: Seq<(int, Seq<char>)>,
    k: int,
    context: WorkspaceClassContext,
    all: bool,
)
    requires
        0 <= k <= words.len(),
    ensures
        references::includes_from(place, words, k, context, all) == recipe_conditions::gathered(
            words,
            k,
            include_of(place, context, all),
        ),
    decreases words.len() - k,
{
    if k < words.len() {
        lemma_includes(place, words, k + 1, context, all);
    }
}

proof fn lemma_cycles(
    place: PlaceView,
    at: int,
    context: WorkspaceClassContext,
    kind: WorkspaceDependencyKind,
    found: Seq<CandidateView>,
    k: int,
    rule: usize,
    p: int,
)
    requires
        0 <= k <= found.len(),
    ensures
        conditions::found_at(references::cycles_from(place, at, context, kind, found, k), rule, p) <==> rule
            == RULE_DEPENDENCY_CYCLE && p == at && exists|j: int|
            k <= j < found.len() && closes_cycle(place, #[trigger] found[j], context),
    decreases found.len() - k,
{
    if k < found.len() {
        lemma_cycles(place, at, context, kind, found, k + 1, rule, p);
        lemma_cycle(place, at, context, kind, found[k], rule, p);
        conditions::lemma_found_add(
            references::cycle_findings(place, at, context, kind, found[k]),
            references::cycles_from(place, at, context, kind, found, k + 1),
            rule,
            p,
        );
    } else {
        conditions::lemma_found_none(rule, p);
    }
}

proof fn lemma_include(
    place: PlaceView,
    w: (int, Seq<char>),
    context: WorkspaceClassContext,
    all: bool,
    rule: usize,
    at: int,
)
    ensures
        ({
            let one = files_named(place, w.1, WorkspaceFileDirective::Include);
            let every = files_named(place, w.1, WorkspaceFileDirective::IncludeAll);
            conditions::found_at(references::include_findings(place, w, context, all), rule, at) <==> rule
                == RULE_DEPENDENCY_CYCLE && at == w.0 && if all {
                exists|j: int|
                    0 <= j < every.len() && closes_cycle(place, #[trigger] every[j], context)
            } else {
                one.len() > 0 && closes_cycle(place, one[0], context)
            }
        }),
{
    let one = files_named(place, w.1, WorkspaceFileDirective::Include);
    let every = files_named(place, w.1, WorkspaceFileDirective::IncludeAll);
    if all {
        lemma_cycles(
            place,
            w.0,
            context,
            WorkspaceDependencyKind::IncludeAll,
            every,
            0,
            rule,
            at,
        );
    } else if one.len() > 0 {
        lemma_cycle(
            place,
            w.0,
            context,
            WorkspaceDependencyKind::Include,
            one[0],
            rule,
            at,
        );
    } else {
        conditions::lemma_found_none(rule, at);
    }
}

// ---------------------------------------------------------------------------
// Classes
// ---------------------------------------------------------------------------
proof fn lemma_defining(
    place: PlaceView,
    class: Seq<char>,
    contexts: Seq<WorkspaceClassContext>,
    clear: bool,
    k: int,
)
    requires
        0 <= k <= contexts.len(),
    ensures
        match references::defining_from(place.index.core, class, contexts, clear, k) {
            Some(context) => exists|c: int|
                k <= c < contexts.len() && contexts[c] == context && #[trigger] defines(
                    place,
                    class,
                    contexts,
                    clear,
                    c,
                ) && forall|b: int|
                    k <= b < c ==> !(#[trigger] defines(place, class, contexts, clear, b)),
            None => forall|c: int|
                k <= c < contexts.len() ==> !(#[trigger] defines(place, class, contexts, clear, c)),
        },
    decreases contexts.len() - k,
{
    if k < contexts.len() {
        lemma_tied(classes_named(place, class, contexts[k]));
        lemma_defining(place, class, contexts, clear, k + 1);
        if defines(place, class, contexts, clear, k) {
            assert(k <= k < contexts.len());
        } else if let Some(context) = references::defining_from(
            place.index.core,
            class,
            contexts,
            clear,
            k + 1,
        ) {
            let c = choose|c: int|
                k + 1 <= c < contexts.len() && contexts[c] == context && #[trigger] defines(
                    place,
                    class,
                    contexts,
                    clear,
                    c,
                ) && forall|b: int|
                    k + 1 <= b < c ==> !(#[trigger] defines(place, class, contexts, clear, b));
            assert(defines(place, class, contexts, clear, c));
        }
    }
}

spec fn defines(
    place: PlaceView,
    class: Seq<char>,
    contexts: Seq<WorkspaceClassContext>,
    clear: bool,
    c: int,
) -> bool {
    classes_named(place, class, contexts[c]).len() > 0 && (!clear || !tied(
        classes_named(place, class, contexts[c]),
    ))
}

/// The namespace in which a class is looked up is the chosen one.
proof fn lemma_chosen(place: PlaceView, class: Seq<char>, contexts: Seq<WorkspaceClassContext>)
    ensures
        match references::defining_context(place.index.core, class, contexts) {
            Some(context) => !undefined_class(place, class, contexts) && (exists|c: int| #[trigger]
                chosen(place, class, contexts, c) && contexts[c] == context) && (ambiguous_class(
                place,
                class,
                contexts,
            ) <==> tied(classes_named(place, class, context))),
            None => undefined_class(place, class, contexts),
        },
{
    lemma_defining(place, class, contexts, true, 0);
    lemma_defining(place, class, contexts, false, 0);
    let core = place.index.core;
    if let Some(context) = references::defining_from(core, class, contexts, true, 0) {
        let c = choose|c: int|
            0 <= c < contexts.len() && contexts[c] == context && #[trigger] defines(
                place,
                class,
                contexts,
                true,
                c,
            ) && forall|b: int| 0 <= b < c ==> !(#[trigger] defines(place, class, contexts, true, b));
        assert(classes_named(place, class, contexts[c]).len() > 0);
        assert(!ambiguous_class(place, class, contexts));
        assert forall|b: int| 0 <= b < c implies classes_named(
            place,
            class,
            #[trigger] contexts[b],
        ).len() == 0 || tied(classes_named(place, class, contexts[b])) by {
            assert(!defines(place, class, contexts, true, b));
        }
        assert(chosen(place, class, contexts, c));
    } else {
        assert forall|c: int|
            0 <= c < contexts.len() && classes_named(place, class, #[trigger] contexts[c]).len() > 0
                implies tied(classes_named(place, class, contexts[c])) by {
            assert(!defines(place, class, contexts, true, c));
        }
        if let Some(context) = references::defining_from(core, class, contexts, false, 0) {
            let c = choose|c: int|
                0 <= c < contexts.len() && contexts[c] == context && #[trigger] defines(
                    place,
                    class,
                    contexts,
                    false,
                    c,
                ) && forall|b: int|
                    0 <= b < c ==> !(#[trigger] defines(place, class, contexts, false, b));
            assert(classes_named(place, class, contexts[c]).len() > 0);
            assert(ambiguous_class(place, class, contexts));
            assert forall|b: int| 0 <= b < c implies classes_named(
                place,
                class,
                #[trigger] contexts[b],
            ).len() == 0 by {
                assert(!defines(place, class, contexts, false, b));
            }
            assert(chosen(place, class, contexts, c));
        } else {
            assert forall|c: int| 0 <= c < contexts.len() implies classes_named(
                place,
                class,
                #[trigger] contexts[c],
            ).len() == 0 by {
                assert(!defines(place, class, contexts, false, c));
            }
        }
    }
}

proof fn lemma_one_chosen(
    place: PlaceView,
    class: Seq<char>,
    contexts: Seq<WorkspaceClassContext>,
    b: int,
    c: int,
)
    requires
        chosen(place, class, contexts, b),
        chosen(place, class, contexts, c),
    ensures
        b == c,
{
    if b < c {
        assert(classes_named(place, class, contexts[b]).len() > 0);
    }
    if c < b {
        assert(classes_named(place, class, contexts[c]).len() > 0);
    }
}

spec fn class_cycle(
    place: PlaceView,
    class: Seq<char>,
    contexts: Seq<WorkspaceClassContext>,
    c: int,
) -> bool {
    chosen(place, class, contexts, c) && closes_cycle(
        place,
        classes_named(place, class, contexts[c])[0],
        contexts[c],
    )
}

proof fn lemma_class(
    place: PlaceView,
    w: (int, Seq<char>),
    contexts: Seq<WorkspaceClassContext>,
    kind: WorkspaceDependencyKind,
    rule: usize,
    at: int,
)
    ensures
        conditions::found_at(references::class_findings(place, w, contexts, kind), rule, at) <==> at == w.0 && {
            ||| rule == RULE_UNRESOLVED_INHERIT && undefined_class(place, w.1, contexts)
            ||| rule == RULE_AMBIGUOUS_INHERIT && ambiguous_class(place, w.1, contexts)
            ||| rule == RULE_DEPENDENCY_CYCLE && exists|c: int| #[trigger]
                class_cycle(place, w.1, contexts, c)
        },
{
    let all = references::class_findings(place, w, contexts, kind);
    lemma_chosen(place, w.1, contexts);
    if let Some(context) = references::defining_context(place.index.core, w.1, contexts) {
        let found = classes_named(place, w.1, context);
        lemma_tied(found);
        let c = choose|c: int| #[trigger]
            chosen(place, w.1, contexts, c) && contexts[c] == context;
        let cycle = references::cycle_findings(place, w.0, context, kind, found[0]);
        lemma_cycle(place, w.0, context, kind, found[0], rule, at);
        if closes_cycle(place, found[0], context) {
            assert(class_cycle(place, w.1, contexts, c));
        }
        if exists|b: int| #[trigger] class_cycle(place, w.1, contexts, b) {
            let b = choose|b: int| #[trigger] class_cycle(place, w.1, contexts, b);
            lemma_one_chosen(place, w.1, contexts, b, c);
        }
        if tied(found) {
            let f = all[0];
            assert(all =~= seq![f] + cycle);
            conditions::lemma_found_add(seq![f], cycle, rule, at);
            conditions::lemma_found_one(f, rule, at);
        } else {
            assert(all =~= cycle);
        }
    } else {
        conditions::lemma_found_one(all[0], rule, at);
        assert(all =~= seq![all[0]]);
        assert forall|c: int| !(#[trigger] class_cycle(place, w.1, contexts, c)) by {
            if chosen(place, w.1, contexts, c) {
                assert(classes_named(place, w.1, contexts[c]).len() == 0);
            }
        }
    }
}

spec fn class_of(
    place: PlaceView,
    contexts: Seq<WorkspaceClassContext>,
    kind: WorkspaceDependencyKind,
) -> spec_fn((int, Seq<char>)) -> Seq<FindingView> {
    |w: (int, Seq<char>)| references::class_findings(place, w, contexts, kind)
}

proof fn lemma_class_words(
    place: PlaceView,
    words: Seq<(int, Seq<char>)>,
    k: int,
    contexts: Seq<WorkspaceClassContext>,
    kind: WorkspaceDependencyKind,
)
    requires
        0 <= k <= words.len(),
    ensures
        references::class_words_from(place, words, k, contexts, kind) == recipe_conditions::gathered(
            words,
            k,
            class_of(place, contexts, kind),
        ),
    decreases words.len() - k,
{
    if k < words.len() {
        lemma_class_words(place, words, k + 1, contexts, kind);
    }
}

// ---------------------------------------------------------------------------
// Statements
// ---------------------------------------------------------------------------
/// What a word of a statement is told.
pub open spec fn word_told(
    place: PlaceView,
    s: StatementView,
    i: int,
    w: (int, Seq<char>),
    rule: usize,
) -> bool {
    ||| rule == RULE_UNRESOLVED_REQUIRE && unresolved_require(place, s, i, w)
    ||| rule == RULE_AMBIGUOUS_REQUIRE && ambiguous_require(place, s, i, w)
    ||| rule == RULE_UNRESOLVED_INHERIT && exists|
        contexts: Seq<WorkspaceClassContext>,
        kind: WorkspaceDependencyKind,
    | #[trigger]
        inherit_word(place, s, i, w, contexts, kind) && undefined_class(place, w.1, contexts)
    ||| rule == RULE_AMBIGUOUS_INHERIT && exists|
        contexts: Seq<WorkspaceClassContext>,
        kind: WorkspaceDependencyKind,
    | #[trigger]
        inherit_word(place, s, i, w, contexts, kind) && ambiguous_class(place, w.1, contexts)
    ||| rule == RULE_DEPENDENCY_CYCLE && cyclic_word(place, s, i, w)
}

spec fn told_at(place: PlaceView, s: StatementView, i: int, w: (int, Seq<char>), rule: usize, at: int) -> bool {
    w.0 == at && word_told(place, s, i, w, rule)
}

proof fn lemma_statement_classes(
    place: PlaceView,
    s: StatementView,
    words: Seq<(int, Seq<char>)>,
    contexts: Seq<WorkspaceClassContext>,
    kind: WorkspaceDependencyKind,
    rule: usize,
    at: int,
)
    requires
        forall|i: int, w: (int, Seq<char>), cs: Seq<WorkspaceClassContext>, kd: WorkspaceDependencyKind|
            #[trigger] inherit_word(place, s, i, w, cs, kd) <==> 0 <= i < words.len() && words[i] == w
                && cs == contexts && kd == kind,
        forall|i: int, w: (int, Seq<char>)|
            !(#[trigger] directive_word(s, DirectiveKeyword::Require, i, w)),
        forall|i: int, w: (int, Seq<char>)|
            !(#[trigger] directive_word(s, DirectiveKeyword::Include, i, w)),
        forall|i: int, w: (int, Seq<char>)|
            !(#[trigger] directive_word(s, DirectiveKeyword::IncludeAll, i, w)),
    ensures
        conditions::found_at(references::class_words_from(place, words, 0, contexts, kind), rule, at) <==> exists|
            i: int,
            w: (int, Seq<char>),
        | #[trigger]
            told_at(place, s, i, w, rule, at),
{
    let f = class_of(place, contexts, kind);
    lemma_class_words(place, words, 0, contexts, kind);
    recipe_conditions::lemma_gathered(words, 0, f, rule, at);
    if exists|i: int| #[trigger] recipe_conditions::speaks(words, 0, f, i, rule, at) {
        let i = choose|i: int| #[trigger] recipe_conditions::speaks(words, 0, f, i, rule, at);
        let w = words[i];
        lemma_class(place, w, contexts, kind, rule, at);
        assert(inherit_word(place, s, i, w, contexts, kind));
        if exists|c: int| #[trigger] class_cycle(place, w.1, contexts, c) {
            let c = choose|c: int| #[trigger] class_cycle(place, w.1, contexts, c);
            assert(cyclic_class(place, s, i, w, contexts, kind, c));
        }
        assert(told_at(place, s, i, w, rule, at));
    }
    if exists|i: int, w: (int, Seq<char>)| #[trigger] told_at(place, s, i, w, rule, at) {
        let (i, w) = choose|i: int, w: (int, Seq<char>)| #[trigger]
            told_at(place, s, i, w, rule, at);
        assert(0 <= i < words.len() && words[i] == w) by {
            if rule == RULE_DEPENDENCY_CYCLE {
                let (cs, kd, c) = choose|
                    cs: Seq<WorkspaceClassContext>,
                    kd: WorkspaceDependencyKind,
                    c: int,
                | #[trigger]
                    cyclic_class(place, s, i, w, cs, kd, c);
                assert(inherit_word(place, s, i, w, cs, kd));
            }
        }
        lemma_class(place, w, contexts, kind, rule, at);
        if rule == RULE_DEPENDENCY_CYCLE {
            let (cs, kd, c) = choose|
                cs: Seq<WorkspaceClassContext>,
                kd: WorkspaceDependencyKind,
                c: int,
            | #[trigger]
                cyclic_class(place, s, i, w, cs, kd, c);
            assert(inherit_word(place, s, i, w, cs, kd));
            assert(class_cycle(place, w.1, contexts, c));
        }
        assert(recipe_conditions::speaks(words, 0, f, i, rule, at));
    }
}

proof fn lemma_no_classes(place: PlaceView, s: StatementView)
    requires
        s matches StatementView::Directive(d) ==> d.keyword != DirectiveKeyword::Inherit && d.keyword
            != DirectiveKeyword::InheritDefer,
        s matches StatementView::Assignment(a) ==> workspace::global_class_kind(a.name) is None
            || !references::place_contexts(place).contains(WorkspaceClassContext::Global),
    ensures
        forall|i: int, w: (int, Seq<char>), cs: Seq<WorkspaceClassContext>, kd: WorkspaceDependencyKind|
            !(#[trigger] inherit_word(place, s, i, w, cs, kd)),
{
}

proof fn lemma_statement(place: PlaceView, s: StatementView, rule: usize, at: int)
    ensures
        conditions::found_at(references::statement_findings(place, s), rule, at) <==> exists|
            i: int,
            w: (int, Seq<char>),
        | #[trigger]
            told_at(place, s, i, w, rule, at),
{
    let contexts = references::place_contexts(place);
    conditions::lemma_found_none(rule, at);
    match s {
        StatementView::Assignment(a) => {
            if workspace::global_class_kind(a.name) is Some && contexts.contains(
                WorkspaceClassContext::Global,
            ) {
                lemma_statement_classes(
                    place,
                    s,
                    checks::assigned_words(a),
                    seq![WorkspaceClassContext::Global],
                    workspace::global_class_kind(a.name)->0,
                    rule,
                    at,
                );
            } else {
                lemma_no_classes(place, s);
                lemma_nothing_told(place, s, rule, at);
            }
        },
        StatementView::Directive(d) => {
            let words = checks::argument_words(d, true);
            if d.keyword == DirectiveKeyword::Inherit {
                lemma_statement_classes(
                    place,
                    s,
                    words,
                    contexts,
                    WorkspaceDependencyKind::Inherit,
                    rule,
                    at,
                );
            } else if d.keyword == DirectiveKeyword::InheritDefer {
                lemma_statement_classes(
                    place,
                    s,
                    words,
                    contexts,
                    WorkspaceDependencyKind::InheritDefer,
                    rule,
                    at,
                );
            } else {
                lemma_no_classes(place, s);
                if d.keyword == DirectiveKeyword::Require {
                    lemma_requires(place, words, 0, contexts[0]);
                    let f = require_of(place, contexts[0]);
                    recipe_conditions::lemma_gathered(words, 0, f, rule, at);
                    lemma_words_told(place, s, words, f, rule, at);
                } else if d.keyword == DirectiveKeyword::Include {
                    lemma_includes(place, words, 0, contexts[0], false);
                    let f = include_of(place, contexts[0], false);
                    recipe_conditions::lemma_gathered(words, 0, f, rule, at);
                    lemma_words_told(place, s, words, f, rule, at);
                } else if d.keyword == DirectiveKeyword::IncludeAll {
                    lemma_includes(place, words, 0, contexts[0], true);
                    let f = include_of(place, contexts[0], true);
                    recipe_conditions::lemma_gathered(words, 0, f, rule, at);
                    lemma_words_told(place, s, words, f, rule, at);
                } else {
                    lemma_nothing_told(place, s, rule, at);
                }
            }
        },
        _ => {
            lemma_no_classes(place, s);
            lemma_nothing_told(place, s, rule, at);
        },
    }
}

/// A statement without words that refer to anything is told nothing.
proof fn lemma_nothing_told(place: PlaceView, s: StatementView, rule: usize, at: int)
    requires
        forall|i: int, w: (int, Seq<char>), cs: Seq<WorkspaceClassContext>, kd: WorkspaceDependencyKind|
            !(#[trigger] inherit_word(place, s, i, w, cs, kd)),
        s matches StatementView::Directive(d) ==> d.keyword != DirectiveKeyword::Require && d.keyword
            != DirectiveKeyword::Include && d.keyword != DirectiveKeyword::IncludeAll,
    ensures
        forall|i: int, w: (int, Seq<char>)| !(#[trigger] told_at(place, s, i, w, rule, at)),
{
    assert forall|i: int, w: (int, Seq<char>)| !(#[trigger] told_at(place, s, i, w, rule, at)) by {
        assert forall|cs: Seq<WorkspaceClassContext>, kd: WorkspaceDependencyKind, c: int|
            !(#[trigger] cyclic_class(place, s, i, w, cs, kd, c)) by {
            assert(!inherit_word(place, s, i, w, cs, kd));
        }
    }
}

/// The words of a directive on files are told one by one.
proof fn lemma_words_told(
    place: PlaceView,
    s: StatementView,
    words: Seq<(int, Seq<char>)>,
    f: spec_fn((int, Seq<char>)) -> Seq<FindingView>,
    rule: usize,
    at: int,
)
    requires
        forall|i: int, w: (int, Seq<char>), cs: Seq<WorkspaceClassContext>, kd: WorkspaceDependencyKind|
            !(#[trigger] inherit_word(place, s, i, w, cs, kd)),
        s matches StatementView::Directive(d) && words == checks::argument_words(d, true) && {
            ||| d.keyword == DirectiveKeyword::Require && f == require_of(
                place,
                references::place_contexts(place)[0],
            )
            ||| d.keyword == DirectiveKeyword::Include && f == include_of(
                place,
                references::place_contexts(place)[0],
                false,
            )
            ||| d.keyword == DirectiveKeyword::IncludeAll && f == include_of(
                place,
                references::place_contexts(place)[0],
                true,
            )
        },
    ensures
        (exists|i: int| #[trigger] recipe_conditions::speaks(words, 0, f, i, rule, at)) <==> exists|
            i: int,
            w: (int, Seq<char>),
        | #[trigger]
            told_at(place, s, i, w, rule, at),
{
    let d = s->Directive_0;
    let own = references::place_contexts(place)[0];
    assert forall|i: int| 0 <= i < words.len() implies (#[trigger] recipe_conditions::speaks(words, 0, f, i, rule, at)
        <==> told_at(place, s, i, words[i], rule, at)) by {
        let w = words[i];
        assert(directive_word(s, d.keyword, i, w));
        assert forall|cs: Seq<WorkspaceClassContext>, kd: WorkspaceDependencyKind, c: int|
            !(#[trigger] cyclic_class(place, s, i, w, cs, kd, c)) by {
            assert(!inherit_word(place, s, i, w, cs, kd));
        }
        if d.keyword == DirectiveKeyword::Require {
            lemma_require(place, w, own, rule, at);
        } else if d.keyword == DirectiveKeyword::Include {
            lemma_include(place, w, own, false, rule, at);
        } else {
            lemma_include(place, w, own, true, rule, at);
        }
    }
    if exists|i: int| #[trigger] recipe_conditions::speaks(words, 0, f, i, rule, at) {
        let i = choose|i: int| #[trigger] recipe_conditions::speaks(words, 0, f, i, rule, at);
        assert(told_at(place, s, i, words[i], rule, at));
    }
    if exists|i: int, w: (int, Seq<char>)| #[trigger] told_at(place, s, i, w, rule, at) {
        let (i, w) = choose|i: int, w: (int, Seq<char>)| #[trigger]
            told_at(place, s, i, w, rule, at);
        assert forall|cs: Seq<WorkspaceClassContext>, kd: WorkspaceDependencyKind, c: int|
            !(#[trigger] cyclic_class(place, s, i, w, cs, kd, c)) by {
            assert(!inherit_word(place, s, i, w, cs, kd));
        }
        assert(0 <= i < words.len() && words[i] == w);
        assert(recipe_conditions::speaks(words, 0, f, i, rule, at));
    }
}

spec fn statement_of(place: PlaceView) -> spec_fn(StatementView) -> Seq<FindingView> {
    |s: StatementView| references::statement_findings(place, s)
}

proof fn lemma_statements(place: PlaceView, s: Seq<StatementView>, k: int)
    requires
        0 <= k <= s.len(),
    ensures
        references::references_from(place, s, k) == recipe_conditions::gathered(s, k, statement_of(place)),
    decreases s.len() - k,
{
    if k < s.len() {
        lemma_statements(place, s, k + 1);
    }
}

/// When the rules on references speak, at the place of a word: where a `require`
/// names a file that is not found, or one with several candidates of the first
/// rank; where a class is inherited that no namespace of the file defines, or
/// that none defines clearly; and where a dependency on what is found closes a
/// cycle. An `include` of a file that is not found is told nothing.
pub proof fn law_reference_rules(
    place: PlaceView,
    s: Seq<StatementView>,
    rule: usize,
    at: int,
)
    ensures
        conditions::found_at(references::references_from(place, s, 0), rule, at) <==> exists|
            k: int,
            i: int,
            w: (int, Seq<char>),
        |
            0 <= k < s.len() && w.0 == at && #[trigger] word_told(place, s[k], i, w, rule),
{
    let f = statement_of(place);
    lemma_statements(place, s, 0);
    recipe_conditions::lemma_gathered(s, 0, f, rule, at);
    if exists|k: int| #[trigger] recipe_conditions::speaks(s, 0, f, k, rule, at) {
        let k = choose|k: int| #[trigger] recipe_conditions::speaks(s, 0, f, k, rule, at);
        lemma_statement(place, s[k], rule, at);
        let (i, w) = choose|i: int, w: (int, Seq<char>)| #[trigger]
            told_at(place, s[k], i, w, rule, at);
        assert(word_told(place, s[k], i, w, rule));
    }
    if exists|k: int, i: int, w: (int, Seq<char>)|
        0 <= k < s.len() && w.0 == at && #[trigger] word_told(place, s[k], i, w, rule) {
        let (k, i, w) = choose|k: int, i: int, w: (int, Seq<char>)|
            0 <= k < s.len() && w.0 == at && #[trigger] word_told(place, s[k], i, w, rule);
        assert(told_at(place, s[k], i, w, rule, at));
        lemma_statement(place, s[k], rule, at);
        assert(recipe_conditions::speaks(s, 0, f, k, rule, at));
    }
}

} // verus!
