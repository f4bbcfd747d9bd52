//! The lint rules for references to other files of a workspace.
use crate::checks;
use crate::collections;
use crate::dependencies;
use crate::findings;
use crate::numbers;
use crate::statements;
use crate::text;
use crate::workspace;
use crate::checks::PlacedWord;
use crate::checks::directive_words;
use crate::checks::long_phrase;
use crate::checks::phrase;
use crate::checks::value_words;
use crate::collections::join;
use crate::collections::push_text;
use crate::dependencies::IndexView;
use crate::dependencies::WorkspaceIndex;
use crate::findings::FindingView;
use crate::findings::Report;
use crate::numbers::decimal_chars;
use crate::numbers::signed_decimal_chars;
use crate::rules::RULE_AMBIGUOUS_INHERIT;
use crate::rules::RULE_AMBIGUOUS_REQUIRE;
use crate::rules::RULE_DEPENDENCY_CYCLE;
use crate::rules::RULE_UNRESOLVED_INHERIT;
use crate::rules::RULE_UNRESOLVED_REQUIRE;
use crate::statements::Statement;
use crate::statements::StatementView;
use crate::syntax::DirectiveKeyword;
use crate::text::CharClass;
use crate::text::append_chars;
use crate::text::append_str;
use crate::text::chars_of;
use crate::text::string_of;
use crate::text::until_index;
use crate::workspace::CandidateView;
use crate::workspace::CoreView;
use crate::workspace::WorkspaceCandidate;
use crate::workspace::WorkspaceClassContext;
use crate::workspace::WorkspaceDependencyKind;
use crate::workspace::WorkspaceFileDirective;
use crate::workspace::global_class_assignment_kind;
use vstd::prelude::*;

verus! {

// ---------------------------------------------------------------------------
// Candidates in words
// ---------------------------------------------------------------------------
/// What is said of a candidate's collection.
pub open spec fn collection_text(collection: Option<Seq<char>>) -> Seq<char> {
    match collection {
        Some(name) => ", collection '"@ + name + "'"@,
        None => Seq::empty(),
    }
}

/// A candidate in words.
pub open spec fn candidate_text(c: CandidateView) -> Seq<char> {
    "'"@ + c.path + "' through "@ + workspace::scope_text(c.scope) + " in layer '"@ + c.layer + "'"@
        + collection_text(c.collection) + " at priority "@ + numbers::signed_decimal(c.priority)
}

/// A candidate in words.
fn candidate_description(candidate: &WorkspaceCandidate) -> (r: Vec<char>)
    ensures
        r@ == candidate_text(candidate@),
{
    let collection = match candidate.collection() {
        Some(name) => phrase(", collection '", chars_of(name).as_slice(), "'"),
        None => {
            let none: Vec<char> = Vec::new();
            assert(none@ =~= Seq::empty());
            none
        },
    };
    let mut out = chars_of("'");
    append_str(&mut out, candidate.path());
    append_str(&mut out, "' through ");
    append_str(&mut out, candidate.scope().description());
    append_str(&mut out, " in layer '");
    append_str(&mut out, candidate.layer());
    append_str(&mut out, "'");
    append_chars(&mut out, collection.as_slice());
    append_str(&mut out, " at priority ");
    append_chars(&mut out, signed_decimal_chars(candidate.priority()).as_slice());
    out
}

/// The paths of those of `found[k..]` that are ranked like the first one.
pub open spec fn equals_from(found: Seq<CandidateView>, k: int) -> Seq<Seq<char>>
    decreases found.len() - k,
{
    if k < 0 || k >= found.len() {
        Seq::empty()
    } else if found[k].priority == found[0].priority && found[k].scope == found[0].scope {
        seq![found[k].path] + equals_from(found, k + 1)
    } else {
        equals_from(found, k + 1)
    }
}

/// What is said of candidates of which several are ranked first.
pub open spec fn ambiguity(found: Seq<CandidateView>) -> Option<Seq<char>> {
    let equals = equals_from(found, 0);
    if equals.len() < 2 {
        None
    } else {
        Some(
            "resolves to "@ + candidate_text(found[0]) + ", but "@ + numbers::decimal(equals.len())
                + " candidates share effective priority "@ + numbers::signed_decimal(found[0].priority)
                + " through "@ + workspace::scope_text(found[0].scope) + ": "@ + collections::joined(equals, ", "@),
        )
    }
}

/// What is said of candidates of which several are ranked first.
fn ambiguity_message(found: &Vec<WorkspaceCandidate>) -> (r: Option<Vec<char>>)
    ensures
        match r {
            Some(message) => ambiguity(workspace::candidate_views(found@)) == Some(message@),
            None => ambiguity(workspace::candidate_views(found@)) is None,
        },
{
    let ghost all = workspace::candidate_views(found@);
    if found.len() == 0 {
        return None;
    }
    let priority = found[0].priority();
    let scope = found[0].scope();
    assert(all[0] == found@[0]@);
    let mut paths: Vec<String> = Vec::new();
    let mut k: usize = 0;
    assert(collections::string_texts(paths@) =~= Seq::empty());
    assert(Seq::<Seq<char>>::empty() + equals_from(all, 0) =~= equals_from(all, 0));
    while k < found.len()
        invariant
            k <= found@.len(),
            found@.len() > 0,
            all == workspace::candidate_views(found@),
            priority == all[0].priority,
            scope == all[0].scope,
            collections::string_texts(paths@) + equals_from(all, k as int) == equals_from(all, 0),
        decreases found@.len() - k,
    {
        assert(all[k as int] == found@[k as int]@);
        if found[k].priority() == priority && found[k].scope() == scope {
            let ghost before = collections::string_texts(paths@);
            push_text(&mut paths, found[k].path().to_owned());
            proof {
                let rest = equals_from(all, k + 1);
                let x = all[k as int].path;
                assert(before + (seq![x] + rest) =~= before.push(x) + rest);
            }
        }
        k += 1;
    }
    assert(collections::string_texts(paths@) + Seq::<Seq<char>>::empty() =~= collections::string_texts(paths@));
    assert(collections::string_texts(paths@).len() == paths@.len());
    if paths.len() < 2 {
        return None;
    }
    let mut out = chars_of("resolves to ");
    append_chars(&mut out, candidate_description(&found[0]).as_slice());
    append_str(&mut out, ", but ");
    append_chars(&mut out, decimal_chars(paths.len() as u64).as_slice());
    append_str(&mut out, " candidates share effective priority ");
    append_chars(&mut out, signed_decimal_chars(priority).as_slice());
    append_str(&mut out, " through ");
    append_str(&mut out, scope.description());
    append_str(&mut out, ": ");
    append_str(&mut out, join(&paths, ", ").as_str());
    Some(out)
}

// ---------------------------------------------------------------------------
// Cycles
// ---------------------------------------------------------------------------
/// What one word of a file is checked against.
pub struct PlaceView {
    pub index: IndexView,
    pub source: Seq<char>,
    pub path: Seq<char>,
}

/// The findings on a dependency at the position `at` that closes a cycle.
pub open spec fn cycle_findings(
    place: PlaceView,
    at: int,
    context: WorkspaceClassContext,
    kind: WorkspaceDependencyKind,
    c: CandidateView,
) -> Seq<FindingView> {
    match dependencies::cycle_of(place.index, place.path, c.path, context) {
        Some(cycle) => seq![
            findings::finding(
                RULE_DEPENDENCY_CYCLE,
                at,
                text::until_from(place.source, CharClass::Whitespace, at),
                "static "@ + workspace::kind_keyword(kind) + " dependency resolves to "@ + candidate_text(c)
                    + " and forms a cycle: "@ + collections::joined(cycle, " -> "@),
            ),
        ],
        None => Seq::empty(),
    }
}

fn check_dependency_cycle(
    index: &WorkspaceIndex,
    source: &[char],
    path: &str,
    at: usize,
    context: WorkspaceClassContext,
    kind: WorkspaceDependencyKind,
    candidate: &WorkspaceCandidate,
    report: &mut Report,
)
    requires
        index.wf(),
        old(report).wf(),
        old(report).limit() == source@.len(),
        at <= source@.len(),
    ensures
        final(report)@ == old(report)@ + cycle_findings(
            (PlaceView { index: index@, source: source@, path: path@ }),
            at as int,
            context,
            kind,
            candidate@,
        ),
        final(report).wf(),
        final(report).limit() == old(report).limit(),
{
    let ghost before = report@;
    match index.dependency_cycle_for(path, candidate.path(), context) {
        Some(cycle) => {
            let end = until_index(source, CharClass::Whitespace, at);
            let mut message = chars_of("static ");
            append_str(&mut message, kind.keyword());
            append_str(&mut message, " dependency resolves to ");
            append_chars(&mut message, candidate_description(candidate).as_slice());
            append_str(&mut message, " and forms a cycle: ");
            append_str(&mut message, join(&cycle, " -> ").as_str());
            report.push(RULE_DEPENDENCY_CYCLE, at, end, message.as_slice());
        },
        None => {},
    }
    assert(report@ =~= before + cycle_findings(
        (PlaceView { index: index@, source: source@, path: path@ }),
        at as int,
        context,
        kind,
        candidate@,
    ));
}

// ---------------------------------------------------------------------------
// Files
// ---------------------------------------------------------------------------
/// The findings on the file that a `require` names.
pub open spec fn require_findings(
    place: PlaceView,
    w: (int, Seq<char>),
    context: WorkspaceClassContext,
) -> Seq<FindingView> {
    let found = workspace::file_candidates_of(
        place.index.core,
        place.path,
        w.1,
        WorkspaceFileDirective::Require,
    );
    if found.len() == 0 {
        seq![
            findings::finding(
                RULE_UNRESOLVED_REQUIRE,
                w.0,
                checks::word_end(w),
                "required file '"@ + w.1 + "' was not found in indexed layers"@,
            ),
        ]
    } else {
        (match ambiguity(found) {
            Some(message) => seq![
                findings::finding(
                    RULE_AMBIGUOUS_REQUIRE,
                    w.0,
                    checks::word_end(w),
                    "required file '"@ + w.1 + "' "@ + message + ""@,
                ),
            ],
            None => Seq::empty(),
        }) + cycle_findings(place, w.0, context, WorkspaceDependencyKind::Require, found[0])
    }
}

/// The findings on the files that the words `words[k..]` of a `require` name.
pub open spec fn requires_from(
    place: PlaceView,
    words: Seq<(int, Seq<char>)>,
    k: int,
    context: WorkspaceClassContext,
) -> Seq<FindingView>
    decreases words.len() - k,
{
    if k < 0 || k >= words.len() {
        Seq::empty()
    } else {
        require_findings(place, words[k], context) + requires_from(place, words, k + 1, context)
    }
}

/// The findings on the cycles that the candidates `found[k..]` close.
pub open spec fn cycles_from(
    place: PlaceView,
    at: int,
    context: WorkspaceClassContext,
    kind: WorkspaceDependencyKind,
    found: Seq<CandidateView>,
    k: int,
) -> Seq<FindingView>
    decreases found.len() - k,
{
    if k < 0 || k >= found.len() {
        Seq::empty()
    } else {
        cycle_findings(place, at, context, kind, found[k]) + cycles_from(
            place,
            at,
            context,
            kind,
            found,
            k + 1,
        )
    }
}

/// The findings on the files that an `include` or an `include_all` names. A
/// missing file is no finding.
pub open spec fn include_findings(
    place: PlaceView,
    w: (int, Seq<char>),
    context: WorkspaceClassContext,
    all: bool,
) -> Seq<FindingView> {
    if all {
        cycles_from(
            place,
            w.0,
            context,
            WorkspaceDependencyKind::IncludeAll,
            workspace::file_candidates_of(
                place.index.core,
                place.path,
                w.1,
                WorkspaceFileDirective::IncludeAll,
            ),
            0,
        )
    } else {
        let found = workspace::file_candidates_of(
            place.index.core,
            place.path,
            w.1,
            WorkspaceFileDirective::Include,
        );
        if found.len() > 0 {
            cycle_findings(place, w.0, context, WorkspaceDependencyKind::Include, found[0])
        } else {
            Seq::empty()
        }
    }
}

/// The findings on the files that the words `words[k..]` of an `include` or an
/// `include_all` name.
pub open spec fn includes_from(
    place: PlaceView,
    words: Seq<(int, Seq<char>)>,
    k: int,
    context: WorkspaceClassContext,
    all: bool,
) -> Seq<FindingView>
    decreases words.len() - k,
{
    if k < 0 || k >= words.len() {
        Seq::empty()
    } else {
        include_findings(place, words[k], context, all) + includes_from(
            place,
            words,
            k + 1,
            context,
            all,
        )
    }
}

fn check_require(
    index: &WorkspaceIndex,
    source: &[char],
    path: &str,
    w: &PlacedWord,
    context: WorkspaceClassContext,
    report: &mut Report,
)
    requires
        index.wf(),
        old(report).wf(),
        old(report).limit() == source@.len(),
        w.at + w.text@.len() <= source@.len() <= usize::MAX,
    ensures
        final(report)@ == old(report)@ + require_findings(
            (PlaceView { index: index@, source: source@, path: path@ }),
            w@,
            context,
        ),
        final(report).wf(),
        final(report).limit() == old(report).limit(),
{
    let ghost before = report@;
    let ghost place = PlaceView { index: index@, source: source@, path: path@ };
    let target = string_of(w.text.as_slice());
    let found = index.file_candidates_for(path, target.as_str(), WorkspaceFileDirective::Require);
    assert(workspace::candidate_views(found@).len() == found@.len());
    if found.len() == 0 {
        let message = phrase(
            "required file '",
            w.text.as_slice(),
            "' was not found in indexed layers",
        );
        report.push(RULE_UNRESOLVED_REQUIRE, w.at, w.at + w.text.len(), message.as_slice());
        assert(report@ =~= before + require_findings(place, w@, context));
        return;
    }
    assert(workspace::candidate_views(found@)[0] == found@[0]@);
    if let Some(text) = ambiguity_message(&found) {
        let message = long_phrase(
            "required file '",
            w.text.as_slice(),
            "' ",
            text.as_slice(),
            "",
        );
        report.push(RULE_AMBIGUOUS_REQUIRE, w.at, w.at + w.text.len(), message.as_slice());
    }
    check_dependency_cycle(
        index,
        source,
        path,
        w.at,
        context,
        WorkspaceDependencyKind::Require,
        &found[0],
        report,
    );
    assert(report@ =~= before + require_findings(place, w@, context));
}

fn check_requires(
    index: &WorkspaceIndex,
    source: &[char],
    path: &str,
    words: &Vec<PlacedWord>,
    context: WorkspaceClassContext,
    report: &mut Report,
)
    requires
        index.wf(),
        old(report).wf(),
        old(report).limit() == source@.len(),
        source@.len() <= usize::MAX,
        checks::words_before(checks::word_views(words@), source@.len() as int),
    ensures
        final(report)@ == old(report)@ + requires_from(
            (PlaceView { index: index@, source: source@, path: path@ }),
            checks::word_views(words@),
            0,
            context,
        ),
        final(report).wf(),
        final(report).limit() == old(report).limit(),
{
    let ghost place = PlaceView { index: index@, source: source@, path: path@ };
    let ghost all = checks::word_views(words@);
    let ghost goal = report@ + requires_from(place, all, 0, context);
    let mut k: usize = 0;
    while k < words.len()
        invariant
            k <= words@.len(),
            index.wf(),
            place == (PlaceView { index: index@, source: source@, path: path@ }),
            all == checks::word_views(words@),
            checks::words_before(all, source@.len() as int),
            source@.len() <= usize::MAX,
            report.wf(),
            report.limit() == source@.len(),
            report@ + requires_from(place, all, k as int, context) == goal,
        decreases words@.len() - k,
    {
        assert(all[k as int] == words@[k as int]@);
        let ghost before = report@;
        check_require(index, source, path, &words[k], context, report);
        proof {
            let f = require_findings(place, all[k as int], context);
            let rest = requires_from(place, all, k + 1, context);
            assert(before + (f + rest) =~= (before + f) + rest);
        }
        k += 1;
    }
    assert(report@ + Seq::<FindingView>::empty() =~= report@);
}

fn check_include(
    index: &WorkspaceIndex,
    source: &[char],
    path: &str,
    w: &PlacedWord,
    context: WorkspaceClassContext,
    all: bool,
    report: &mut Report,
)
    requires
        index.wf(),
        old(report).wf(),
        old(report).limit() == source@.len(),
        w.at <= source@.len(),
    ensures
        final(report)@ == old(report)@ + include_findings(
            (PlaceView { index: index@, source: source@, path: path@ }),
            w@,
            context,
            all,
        ),
        final(report).wf(),
        final(report).limit() == old(report).limit(),
{
    let ghost place = PlaceView { index: index@, source: source@, path: path@ };
    let ghost first = report@;
    let target = string_of(w.text.as_slice());
    if !all {
        let found = index.file_candidates_for(
            path,
            target.as_str(),
            WorkspaceFileDirective::Include,
        );
        assert(workspace::candidate_views(found@).len() == found@.len());
        if found.len() > 0 {
            assert(workspace::candidate_views(found@)[0] == found@[0]@);
            check_dependency_cycle(
                index,
                source,
                path,
                w.at,
                context,
                WorkspaceDependencyKind::Include,
                &found[0],
                report,
            );
        }
        assert(report@ =~= first + include_findings(place, w@, context, all));
        return;
    }
    let found = index.file_candidates_for(
        path,
        target.as_str(),
        WorkspaceFileDirective::IncludeAll,
    );
    let ghost views = workspace::candidate_views(found@);
    let kind = WorkspaceDependencyKind::IncludeAll;
    let ghost goal = report@ + cycles_from(place, w.at as int, context, kind, views, 0);
    let mut k: usize = 0;
    while k < found.len()
        invariant
            k <= found@.len(),
            index.wf(),
            place == (PlaceView { index: index@, source: source@, path: path@ }),
            views == workspace::candidate_views(found@),
            w.at <= source@.len(),
            report.wf(),
            report.limit() == source@.len(),
            report@ + cycles_from(place, w.at as int, context, kind, views, k as int) == goal,
        decreases found@.len() - k,
    {
        assert(views[k as int] == found@[k as int]@);
        let ghost before = report@;
        check_dependency_cycle(index, source, path, w.at, context, kind, &found[k], report);
        proof {
            let f = cycle_findings(place, w.at as int, context, kind, views[k as int]);
            let rest = cycles_from(place, w.at as int, context, kind, views, k + 1);
            assert(before + (f + rest) =~= (before + f) + rest);
        }
        k += 1;
    }
    assert(report@ + Seq::<FindingView>::empty() =~= report@);
}

fn check_includes(
    index: &WorkspaceIndex,
    source: &[char],
    path: &str,
    words: &Vec<PlacedWord>,
    context: WorkspaceClassContext,
    every: bool,
    report: &mut Report,
)
    requires
        index.wf(),
        old(report).wf(),
        old(report).limit() == source@.len(),
        checks::words_before(checks::word_views(words@), source@.len() as int),
    ensures
        final(report)@ == old(report)@ + includes_from(
            (PlaceView { index: index@, source: source@, path: path@ }),
            checks::word_views(words@),
            0,
            context,
            every,
        ),
        final(report).wf(),
        final(report).limit() == old(report).limit(),
{
    let ghost place = PlaceView { index: index@, source: source@, path: path@ };
    let ghost all = checks::word_views(words@);
    let ghost goal = report@ + includes_from(place, all, 0, context, every);
    let mut k: usize = 0;
    while k < words.len()
        invariant
            k <= words@.len(),
            index.wf(),
            place == (PlaceView { index: index@, source: source@, path: path@ }),
            all == checks::word_views(words@),
            checks::words_before(all, source@.len() as int),
            report.wf(),
            report.limit() == source@.len(),
            report@ + includes_from(place, all, k as int, context, every) == goal,
        decreases words@.len() - k,
    {
        assert(all[k as int] == words@[k as int]@);
        let ghost before = report@;
        check_include(index, source, path, &words[k], context, every, report);
        proof {
            let f = include_findings(place, all[k as int], context, every);
            let rest = includes_from(place, all, k + 1, context, every);
            assert(before + (f + rest) =~= (before + f) + rest);
        }
        k += 1;
    }
    assert(report@ + Seq::<FindingView>::empty() =~= report@);
}

// ---------------------------------------------------------------------------
// Classes
// ---------------------------------------------------------------------------
/// The first of the namespaces `contexts[k..]` that defines `class`, and does
/// so without ambiguity where `clear` asks for it.
pub open spec fn defining_from(
    core: CoreView,
    class: Seq<char>,
    contexts: Seq<WorkspaceClassContext>,
    clear: bool,
    k: int,
) -> Option<WorkspaceClassContext>
    decreases contexts.len() - k,
{
    if k < 0 || k >= contexts.len() {
        None
    } else {
        let found = workspace::class_candidates_of(core, class, contexts[k]);
        if found.len() > 0 && (!clear || ambiguity(found) is None) {
            Some(contexts[k])
        } else {
            defining_from(core, class, contexts, clear, k + 1)
        }
    }
}

/// The namespace in which `class` is looked up: the first with one definition
/// of the highest rank, else the first with any.
pub open spec fn defining_context(
    core: CoreView,
    class: Seq<char>,
    contexts: Seq<WorkspaceClassContext>,
) -> Option<WorkspaceClassContext> {
    match defining_from(core, class, contexts, true, 0) {
        Some(context) => Some(context),
        None => defining_from(core, class, contexts, false, 0),
    }
}

/// The findings on a class that a file inherits.
pub open spec fn class_findings(
    place: PlaceView,
    w: (int, Seq<char>),
    contexts: Seq<WorkspaceClassContext>,
    kind: WorkspaceDependencyKind,
) -> Seq<FindingView> {
    match defining_context(place.index.core, w.1, contexts) {
        Some(context) => {
            let found = workspace::class_candidates_of(place.index.core, w.1, context);
            (match ambiguity(found) {
                Some(message) => seq![
                    findings::finding(
                        RULE_AMBIGUOUS_INHERIT,
                        w.0,
                        checks::word_end(w),
                        "inherited class '"@ + w.1 + "' "@ + message + ""@,
                    ),
                ],
                None => Seq::empty(),
            }) + cycle_findings(place, w.0, context, kind, found[0])
        },
        None => seq![
            findings::finding(
                RULE_UNRESOLVED_INHERIT,
                w.0,
                checks::word_end(w),
                "inherited class '"@ + w.1 + "' was not found in indexed layers"@,
            ),
        ],
    }
}

/// The findings on the classes `words[k..]` that a file inherits.
pub open spec fn class_words_from(
    place: PlaceView,
    words: Seq<(int, Seq<char>)>,
    k: int,
    contexts: Seq<WorkspaceClassContext>,
    kind: WorkspaceDependencyKind,
) -> Seq<FindingView>
    decreases words.len() - k,
{
    if k < 0 || k >= words.len() {
        Seq::empty()
    } else {
        class_findings(place, words[k], contexts, kind) + class_words_from(
            place,
            words,
            k + 1,
            contexts,
            kind,
        )
    }
}

fn find_context(
    index: &WorkspaceIndex,
    class: &str,
    contexts: &Vec<WorkspaceClassContext>,
    clear: bool,
) -> (r: Option<WorkspaceClassContext>)
    requires
        index.wf(),
    ensures
        r == defining_from(index@.core, class@, contexts@, clear, 0),
        r matches Some(context) ==> workspace::class_candidates_of(index@.core, class@, context).len() > 0,
{
    let ghost core = index@.core;
    let mut k: usize = 0;
    while k < contexts.len()
        invariant
            k <= contexts@.len(),
            index.wf(),
            core == index@.core,
            defining_from(core, class@, contexts@, clear, 0) == defining_from(
                core,
                class@,
                contexts@,
                clear,
                k as int,
            ),
        decreases contexts@.len() - k,
    {
        let found = index.class_candidates_for(class, contexts[k]);
        assert(workspace::candidate_views(found@).len() == found@.len());
        if found.len() > 0 && (!clear || ambiguity_message(&found).is_none()) {
            return Some(contexts[k]);
        }
        k += 1;
    }
    None
}

fn check_class_reference(
    index: &WorkspaceIndex,
    source: &[char],
    path: &str,
    w: &PlacedWord,
    contexts: &Vec<WorkspaceClassContext>,
    kind: WorkspaceDependencyKind,
    report: &mut Report,
)
    requires
        index.wf(),
        old(report).wf(),
        old(report).limit() == source@.len(),
        w.at + w.text@.len() <= source@.len() <= usize::MAX,
    ensures
        final(report)@ == old(report)@ + class_findings(
            (PlaceView { index: index@, source: source@, path: path@ }),
            w@,
            contexts@,
            kind,
        ),
        final(report).wf(),
        final(report).limit() == old(report).limit(),
{
    let ghost before = report@;
    let ghost place = PlaceView { index: index@, source: source@, path: path@ };
    let class = string_of(w.text.as_slice());
    let chosen = match find_context(index, class.as_str(), contexts, true) {
        Some(context) => Some(context),
        None => find_context(index, class.as_str(), contexts, false),
    };
    match chosen {
        Some(context) => {
            let found = index.class_candidates_for(class.as_str(), context);
            assert(workspace::candidate_views(found@).len() == found@.len());
            assert(workspace::candidate_views(found@)[0] == found@[0]@);
            if let Some(text) = ambiguity_message(&found) {
                let message = long_phrase(
                    "inherited class '",
                    w.text.as_slice(),
                    "' ",
                    text.as_slice(),
                    "",
                );
                report.push(
                    RULE_AMBIGUOUS_INHERIT,
                    w.at,
                    w.at + w.text.len(),
                    message.as_slice(),
                );
            }
            check_dependency_cycle(index, source, path, w.at, context, kind, &found[0], report);
        },
        None => {
            let message = phrase(
                "inherited class '",
                w.text.as_slice(),
                "' was not found in indexed layers",
            );
            report.push(RULE_UNRESOLVED_INHERIT, w.at, w.at + w.text.len(), message.as_slice());
        },
    }
    assert(report@ =~= before + class_findings(place, w@, contexts@, kind));
}

fn check_class_words(
    index: &WorkspaceIndex,
    source: &[char],
    path: &str,
    words: &Vec<PlacedWord>,
    contexts: &Vec<WorkspaceClassContext>,
    kind: WorkspaceDependencyKind,
    report: &mut Report,
)
    requires
        index.wf(),
        old(report).wf(),
        old(report).limit() == source@.len(),
        source@.len() <= usize::MAX,
        checks::words_before(checks::word_views(words@), source@.len() as int),
    ensures
        final(report)@ == old(report)@ + class_words_from(
            (PlaceView { index: index@, source: source@, path: path@ }),
            checks::word_views(words@),
            0,
            contexts@,
            kind,
        ),
        final(report).wf(),
        final(report).limit() == old(report).limit(),
{
    let ghost place = PlaceView { index: index@, source: source@, path: path@ };
    let ghost all = checks::word_views(words@);
    let ghost goal = report@ + class_words_from(place, all, 0, contexts@, kind);
    let mut k: usize = 0;
    while k < words.len()
        invariant
            k <= words@.len(),
            index.wf(),
            place == (PlaceView { index: index@, source: source@, path: path@ }),
            all == checks::word_views(words@),
            checks::words_before(all, source@.len() as int),
            source@.len() <= usize::MAX,
            report.wf(),
            report.limit() == source@.len(),
            report@ + class_words_from(place, all, k as int, contexts@, kind) == goal,
        decreases words@.len() - k,
    {
        assert(all[k as int] == words@[k as int]@);
        let ghost before = report@;
        check_class_reference(index, source, path, &words[k], contexts, kind, report);
        proof {
            let f = class_findings(place, all[k as int], contexts@, kind);
            let rest = class_words_from(place, all, k + 1, contexts@, kind);
            assert(before + (f + rest) =~= (before + f) + rest);
        }
        k += 1;
    }
    assert(report@ + Seq::<FindingView>::empty() =~= report@);
}

// ---------------------------------------------------------------------------
// One file
// ---------------------------------------------------------------------------
/// The class namespaces of the file at a place.
pub open spec fn place_contexts(place: PlaceView) -> Seq<WorkspaceClassContext> {
    workspace::contexts_of(workspace::canonical(place.index.core.table, place.path))
}

/// The findings on what one statement refers to.
pub open spec fn statement_findings(place: PlaceView, s: StatementView) -> Seq<FindingView> {
    let contexts = place_contexts(place);
    match s {
        StatementView::Assignment(a) => match workspace::global_class_kind(a.name) {
            Some(kind) => if contexts.contains(WorkspaceClassContext::Global) {
                class_words_from(
                    place,
                    checks::assigned_words(a),
                    0,
                    seq![WorkspaceClassContext::Global],
                    kind,
                )
            } else {
                Seq::empty()
            },
            None => Seq::empty(),
        },
        StatementView::Directive(d) => match d.keyword {
            DirectiveKeyword::Require => requires_from(
                place,
                checks::argument_words(d, true),
                0,
                contexts[0],
            ),
            DirectiveKeyword::Inherit => class_words_from(
                place,
                checks::argument_words(d, true),
                0,
                contexts,
                WorkspaceDependencyKind::Inherit,
            ),
            DirectiveKeyword::InheritDefer => class_words_from(
                place,
                checks::argument_words(d, true),
                0,
                contexts,
                WorkspaceDependencyKind::InheritDefer,
            ),
            DirectiveKeyword::Include => includes_from(
                place,
                checks::argument_words(d, true),
                0,
                contexts[0],
                false,
            ),
            DirectiveKeyword::IncludeAll => includes_from(
                place,
                checks::argument_words(d, true),
                0,
                contexts[0],
                true,
            ),
            _ => Seq::empty(),
        },
        _ => Seq::empty(),
    }
}

/// The findings on what the statements `s[k..]` refer to.
pub open spec fn references_from(place: PlaceView, s: Seq<StatementView>, k: int) -> Seq<
    FindingView,
>
    decreases s.len() - k,
{
    if k < 0 || k >= s.len() {
        Seq::empty()
    } else {
        statement_findings(place, s[k]) + references_from(place, s, k + 1)
    }
}

fn has_global(contexts: &Vec<WorkspaceClassContext>) -> (r: bool)
    ensures
        r == contexts@.contains(WorkspaceClassContext::Global),
{
    let mut k: usize = 0;
    while k < contexts.len()
        invariant
            k <= contexts@.len(),
            forall|j: int| 0 <= j < k ==> #[trigger] contexts@[j] != WorkspaceClassContext::Global,
        decreases contexts@.len() - k,
    {
        if contexts[k] == WorkspaceClassContext::Global {
            return true;
        }
        k += 1;
    }
    false
}

fn check_statement(
    index: &WorkspaceIndex,
    source: &[char],
    path: &str,
    statement: &Statement,
    contexts: &Vec<WorkspaceClassContext>,
    report: &mut Report,
)
    requires
        index.wf(),
        old(report).wf(),
        old(report).limit() == source@.len(),
        source@.len() <= usize::MAX,
        statements::statement_inside(source@, statement@),
        contexts@.len() > 0,
        contexts@ == workspace::contexts_of(workspace::canonical(index@.core.table, path@)),
    ensures
        final(report)@ == old(report)@ + statement_findings(
            (PlaceView { index: index@, source: source@, path: path@ }),
            statement@,
        ),
        final(report).wf(),
        final(report).limit() == old(report).limit(),
{
    assert(report@ + Seq::<FindingView>::empty() =~= report@);
    match statement {
        Statement::Assignment(a) => {
            if has_global(contexts) {
                if let Some(kind) = global_class_assignment_kind(a.name.as_slice()) {
                    let words = value_words(a);
                    let mut global: Vec<WorkspaceClassContext> = Vec::new();
                    global.push(WorkspaceClassContext::Global);
                    assert(global@ =~= seq![WorkspaceClassContext::Global]);
                    check_class_words(index, source, path, &words, &global, kind, report);
                }
            }
        },
        Statement::Directive(d) => {
            let words = directive_words(d, true);
            match d.keyword {
                DirectiveKeyword::Require => {
                    check_requires(index, source, path, &words, contexts[0], report);
                },
                DirectiveKeyword::Inherit => {
                    check_class_words(
                        index,
                        source,
                        path,
                        &words,
                        contexts,
                        WorkspaceDependencyKind::Inherit,
                        report,
                    );
                },
                DirectiveKeyword::InheritDefer => {
                    check_class_words(
                        index,
                        source,
                        path,
                        &words,
                        contexts,
                        WorkspaceDependencyKind::InheritDefer,
                        report,
                    );
                },
                DirectiveKeyword::Include => {
                    check_includes(index, source, path, &words, contexts[0], false, report);
                },
                DirectiveKeyword::IncludeAll => {
                    check_includes(index, source, path, &words, contexts[0], true, report);
                },
                _ => {},
            }
        },
        _ => {},
    }
}

/// Reports what a file refers to and the workspace does not hold, holds more
/// than once, or refers back to the file.
pub fn check_workspace_references(
    index: &WorkspaceIndex,
    source: &[char],
    path: &str,
    statements: &Vec<Statement>,
    report: &mut Report,
)
    requires
        index.wf(),
        old(report).wf(),
        old(report).limit() == source@.len(),
        statements::statements_inside(source@, statements::statement_views(statements@)),
    ensures
        final(report)@ == old(report)@ + references_from(
            (PlaceView { index: index@, source: source@, path: path@ }),
            statements::statement_views(statements@),
            0,
        ),
        final(report).wf(),
        final(report).limit() == old(report).limit(),
{
    let ghost place = PlaceView { index: index@, source: source@, path: path@ };
    let ghost all = statements::statement_views(statements@);
    let ghost goal = report@ + references_from(place, all, 0);
    let contexts = index.class_contexts_for_path(path);
    let size = source.len();
    let mut k: usize = 0;
    while k < statements.len()
        invariant
            k <= statements@.len(),
            index.wf(),
            size == source@.len(),
            place == (PlaceView { index: index@, source: source@, path: path@ }),
            contexts@.len() > 0,
            contexts@ == workspace::contexts_of(workspace::canonical(index@.core.table, path@)),
            all == statements::statement_views(statements@),
            statements::statements_inside(source@, all),
            report.wf(),
            report.limit() == source@.len(),
            report@ + references_from(place, all, k as int) == goal,
        decreases statements@.len() - k,
    {
        assert(all[k as int] == statements@[k as int]@);
        assert(statements::statement_inside(source@, all[k as int]));
        let ghost before = report@;
        check_statement(index, source, path, &statements[k], &contexts, report);
        proof {
            let f = statement_findings(place, all[k as int]);
            let rest = references_from(place, all, k + 1);
            assert(before + (f + rest) =~= (before + f) + rest);
        }
        k += 1;
    }
    assert(report@ + Seq::<FindingView>::empty() =~= report@);
}

} // verus!
