//! The lint rules for layer configurations.
use crate::checks;
use crate::collections;
use crate::findings;
use crate::numbers;
use crate::orders;
use crate::statements;
use crate::text;
use crate::values;
use crate::checks::PlacedWord;
use crate::checks::long_phrase;
use crate::checks::phrase;
use crate::checks::value_words;
use crate::collections::has_text;
use crate::collections::push_text;
use crate::findings::FindingView;
use crate::findings::Report;
use crate::numbers::parse_i32;
use crate::orders::TextOrder;
use crate::orders::sort_distinct;
use crate::rules::RULE_COUNT;
use crate::rules::RULE_LAYER_COLLECTIONS;
use crate::rules::RULE_LAYER_DEPENDS;
use crate::rules::RULE_LAYER_PATTERN;
use crate::rules::RULE_LAYER_PRIORITY;
use crate::rules::RULE_LAYER_SERIES_COMPAT;
use crate::statements::AssignmentStatement;
use crate::statements::AssignmentView;
use crate::statements::Statement;
use crate::statements::StatementView;
use crate::text::append_chars;
use crate::text::chars_of;
use crate::text::contains_char;
use crate::text::ends_with;
use crate::text::eq_str;
use crate::text::same_chars;
use crate::text::starts_with;
use crate::text::string_of;
use crate::values::scalar_value;
use crate::values::simple_quoted_value;
use vstd::prelude::*;
use vstd::slice::slice_subrange;

verus! {

/// The first of the statements `s[k..]` that assigns the variable `name`.
pub open spec fn first_assignment(s: Seq<StatementView>, name: Seq<char>, k: int) -> Option<
    AssignmentView,
>
    decreases s.len() - k,
{
    if k < 0 || k >= s.len() {
        None
    } else {
        match s[k] {
            StatementView::Assignment(a) => if a.name == name {
                Some(a)
            } else {
                first_assignment(s, name, k + 1)
            },
            _ => first_assignment(s, name, k + 1),
        }
    }
}

fn find_assignment<'a>(statements: &'a Vec<Statement>, name: &[char]) -> (r: Option<
    &'a AssignmentStatement,
>)
    ensures
        match r {
            Some(a) => first_assignment(statements::statement_views(statements@), name@, 0) == Some(a@)
                && exists|k: int|
                0 <= k < statements@.len() && #[trigger] statements::statement_views(statements@)[k]
                    == StatementView::Assignment(a@),
            None => first_assignment(statements::statement_views(statements@), name@, 0) is None,
        },
{
    let ghost all = statements::statement_views(statements@);
    let mut k: usize = 0;
    while k < statements.len()
        invariant
            k <= statements@.len(),
            all == statements::statement_views(statements@),
            first_assignment(all, name@, 0) == first_assignment(all, name@, k as int),
        decreases statements@.len() - k,
    {
        assert(all[k as int] == statements@[k as int]@);
        if let Statement::Assignment(a) = &statements[k] {
            if same_chars(a.name.as_slice(), name) {
                return Some(a);
            }
        }
        k += 1;
    }
    None
}

// ---------------------------------------------------------------------------
// Collections
// ---------------------------------------------------------------------------
/// The collections that the statements `s[k..]` declare.
pub open spec fn declared_from(s: Seq<StatementView>, k: int) -> Seq<(int, Seq<char>)>
    decreases s.len() - k,
{
    if k < 0 || k >= s.len() {
        Seq::empty()
    } else {
        match s[k] {
            StatementView::Assignment(a) => if a.name == "BBFILE_COLLECTIONS"@ {
                checks::assigned_words(a) + declared_from(s, k + 1)
            } else {
                declared_from(s, k + 1)
            },
            _ => declared_from(s, k + 1),
        }
    }
}

/// Whether an assignment computes collections.
pub open spec fn computes_collections(a: AssignmentView) -> bool {
    a.name == "BBFILE_COLLECTIONS"@ && match values::quoted_text(a.value) {
        Some(value) => values::holds_either(value, '$', '{'),
        None => false,
    }
}

/// Whether one of the statements `s[..n]` computes collections.
pub open spec fn computed_before(s: Seq<StatementView>, n: int) -> bool
    decreases n,
{
    if n <= 0 || n > s.len() {
        false
    } else {
        computed_before(s, n - 1) || match s[n - 1] {
            StatementView::Assignment(a) => computes_collections(a),
            _ => false,
        }
    }
}

/// The findings on the collections `words[k..]` that `seen` or an earlier word
/// declares.
pub open spec fn redeclared_from(
    words: Seq<(int, Seq<char>)>,
    k: int,
    seen: Seq<Seq<char>>,
) -> Seq<FindingView>
    decreases words.len() - k,
{
    if k < 0 || k >= words.len() {
        Seq::empty()
    } else if seen.contains(words[k].1) {
        seq![
            findings::finding(
                RULE_LAYER_COLLECTIONS,
                words[k].0,
                checks::word_end(words[k]),
                "layer collection '"@ + words[k].1 + "' is declared more than once"@,
            ),
        ] + redeclared_from(words, k + 1, seen)
    } else {
        redeclared_from(words, k + 1, seen.push(words[k].1))
    }
}

/// The text of a word.
pub open spec fn word_text() -> spec_fn((int, Seq<char>)) -> Seq<char> {
    |w: (int, Seq<char>)| w.1
}

/// The names of the collections that a layer declares, in order.
pub open spec fn declared_names(words: Seq<(int, Seq<char>)>) -> Seq<Seq<char>> {
    orders::sorted_distinct(TextOrder::Plain, words.map_values(word_text()))
}

/// The findings on a variable that each collection needs.
pub open spec fn needed_findings(
    source: Seq<char>,
    rule: usize,
    prefix: Seq<char>,
    collection: Seq<char>,
) -> Seq<FindingView> {
    let name = prefix + collection;
    match first_assignment(statements::statements_of(source), name, 0) {
        Some(a) => match values::scalar(a.value) {
            Some(value) => if value.len() > 0 {
                Seq::empty()
            } else {
                seq![findings::finding(rule, a.name_at, checks::name_end(a), ""@ + name + " must not be empty"@)]
            },
            None => seq![
                findings::finding(rule, a.name_at, checks::name_end(a), ""@ + name + " must not be empty"@),
            ],
        },
        None => seq![missing_variable(source, rule, name, collection)],
    }
}

/// The finding on a variable that a collection lacks.
pub open spec fn missing_variable(
    source: Seq<char>,
    rule: usize,
    name: Seq<char>,
    collection: Seq<char>,
) -> FindingView {
    findings::finding(
        rule,
        source.len() as int,
        source.len() as int,
        "layer collection '"@ + collection + "' is missing "@ + name + ""@,
    )
}

/// Whether a priority is an integer, or computed.
pub open spec fn good_priority(value: Seq<char>) -> bool {
    match values::scalar(value) {
        Some(text) => text.contains('$') || numbers::integer_value(
            text,
            true,
            i32::MIN as int,
            i32::MAX as int,
        ) is Some,
        None => false,
    }
}

/// The findings on the priority of a collection.
pub open spec fn priority_findings(source: Seq<char>, collection: Seq<char>) -> Seq<FindingView> {
    let name = "BBFILE_PRIORITY_"@ + collection;
    match first_assignment(statements::statements_of(source), name, 0) {
        Some(a) => if good_priority(a.value) {
            Seq::empty()
        } else {
            seq![
                findings::finding(
                    RULE_LAYER_PRIORITY,
                    a.name_at,
                    checks::name_end(a),
                    ""@ + name + " must be an integer"@,
                ),
            ]
        },
        None => seq![missing_variable(source, RULE_LAYER_PRIORITY, name, collection)],
    }
}

/// Whether a word of a dependency list stands for a version.
pub open spec fn version_word(word: Seq<char>) -> bool {
    text::has_prefix(word, "("@) || text::has_suffix(word, ")"@)
}

/// The findings on the dependencies `words[k..]` on collections that the
/// workspace does not hold.
pub open spec fn unknown_from(
    words: Seq<(int, Seq<char>)>,
    k: int,
    name: Seq<char>,
    known: Seq<Seq<char>>,
) -> Seq<FindingView>
    decreases words.len() - k,
{
    if k < 0 || k >= words.len() {
        Seq::empty()
    } else if version_word(words[k].1) || known.contains(words[k].1) {
        unknown_from(words, k + 1, name, known)
    } else {
        seq![
            findings::finding(
                RULE_LAYER_DEPENDS,
                words[k].0,
                checks::word_end(words[k]),
                ""@ + name + " references unknown layer collection '"@ + words[k].1 + "'"@,
            ),
        ] + unknown_from(words, k + 1, name, known)
    }
}

/// The findings on the dependencies of a collection.
pub open spec fn depends_findings(
    source: Seq<char>,
    collection: Seq<char>,
    known: Seq<Seq<char>>,
) -> Seq<FindingView> {
    let name = "LAYERDEPENDS_"@ + collection;
    match first_assignment(statements::statements_of(source), name, 0) {
        Some(a) => unknown_from(checks::assigned_words(a), 0, name, known),
        None => Seq::empty(),
    }
}

/// The findings on one collection of a layer.
pub open spec fn collection_findings(
    source: Seq<char>,
    collection: Seq<char>,
    known: Seq<Seq<char>>,
) -> Seq<FindingView> {
    needed_findings(source, RULE_LAYER_PATTERN, "BBFILE_PATTERN_"@, collection)
        + priority_findings(source, collection) + needed_findings(
        source,
        RULE_LAYER_SERIES_COMPAT,
        "LAYERSERIES_COMPAT_"@,
        collection,
    ) + depends_findings(source, collection, known)
}

/// The findings on the collections `names[k..]`.
pub open spec fn collections_checked(
    source: Seq<char>,
    names: Seq<Seq<char>>,
    k: int,
    known: Seq<Seq<char>>,
) -> Seq<FindingView>
    decreases names.len() - k,
{
    if k < 0 || k >= names.len() {
        Seq::empty()
    } else {
        collection_findings(source, names[k], known) + collections_checked(
            source,
            names,
            k + 1,
            known,
        )
    }
}

/// The findings on a layer configuration in a workspace with the collections
/// `known`.
pub open spec fn layer_findings(source: Seq<char>, known: Seq<Seq<char>>) -> Seq<FindingView> {
    let s = statements::statements_of(source);
    let words = declared_from(s, 0);
    redeclared_from(words, 0, Seq::empty()) + if words.len() > 0 {
        collections_checked(source, declared_names(words), 0, known)
    } else if computed_before(s, s.len() as int) {
        Seq::empty()
    } else {
        seq![
            findings::finding(
                RULE_LAYER_COLLECTIONS,
                source.len() as int,
                source.len() as int,
                "layer is missing a static BBFILE_COLLECTIONS declaration"@,
            ),
        ]
    }
}

// ---------------------------------------------------------------------------
// Checks
// ---------------------------------------------------------------------------
fn declared_words(statements: &Vec<Statement>, Ghost(source): Ghost<Seq<char>>) -> (r: (
    Vec<PlacedWord>,
    bool,
))
    requires
        source.len() <= usize::MAX,
        statements::statements_inside(source, statements::statement_views(statements@)),
    ensures
        checks::word_views(r.0@) == declared_from(statements::statement_views(statements@), 0),
        checks::words_before(checks::word_views(r.0@), source.len() as int),
        r.1 == computed_before(statements::statement_views(statements@), statements@.len() as int),
{
    let ghost all = statements::statement_views(statements@);
    let mut words: Vec<PlacedWord> = Vec::new();
    let mut computed = false;
    let mut k: usize = 0;
    assert(checks::word_views(words@) =~= Seq::empty());
    assert(checks::word_views(words@) + declared_from(all, 0) =~= declared_from(all, 0));
    while k < statements.len()
        invariant
            k <= statements@.len(),
            all == statements::statement_views(statements@),
            source.len() <= usize::MAX,
            statements::statements_inside(source, all),
            checks::word_views(words@) + declared_from(all, k as int) == declared_from(all, 0),
            checks::words_before(checks::word_views(words@), source.len() as int),
            computed == computed_before(all, k as int),
        decreases statements@.len() - k,
    {
        assert(all[k as int] == statements@[k as int]@);
        if let Statement::Assignment(a) = &statements[k] {
            assert(statements::statement_inside(source, all[k as int]));
            if eq_str(a.name.as_slice(), "BBFILE_COLLECTIONS") {
                if let Some((s, e)) = simple_quoted_value(a.value.as_slice()) {
                    let value = slice_subrange(a.value.as_slice(), s, e);
                    computed = computed || contains_char(value, '$') || contains_char(value, '{');
                }
                let mut more = value_words(a);
                let ghost before = words@;
                let ghost added = more@;
                words.append(&mut more);
                proof {
                    assert(words@ =~= before + added);
                    assert(checks::word_views(words@) =~= checks::word_views(before) + checks::word_views(added));
                    let rest = declared_from(all, k + 1);
                    assert(checks::word_views(before) + (checks::word_views(added) + rest) =~= (checks::word_views(before)
                        + checks::word_views(added)) + rest);
                    assert forall|j: int| 0 <= j < checks::word_views(words@).len() implies 0 <= (
                    #[trigger] checks::word_views(words@)[j]).0 && checks::word_views(words@)[j].0 + checks::word_views(
                        words@,
                    )[j].1.len() <= source.len() by {
                        if j < before.len() {
                            assert(checks::word_views(words@)[j] == checks::word_views(before)[j]);
                        } else {
                            assert(checks::word_views(words@)[j] == checks::word_views(added)[j - before.len()]);
                        }
                    }
                }
            }
        }
        k += 1;
    }
    assert(checks::word_views(words@) + Seq::<(int, Seq<char>)>::empty() =~= checks::word_views(words@));
    (words, computed)
}

fn check_redeclared(words: &Vec<PlacedWord>, report: &mut Report)
    requires
        old(report).wf(),
        old(report).limit() <= usize::MAX,
        checks::words_before(checks::word_views(words@), old(report).limit()),
    ensures
        final(report)@ == old(report)@ + redeclared_from(checks::word_views(words@), 0, Seq::empty()),
        final(report).wf(),
        final(report).limit() == old(report).limit(),
{
    let ghost all = checks::word_views(words@);
    let ghost goal = report@ + redeclared_from(all, 0, Seq::empty());
    let mut seen: Vec<String> = Vec::new();
    let mut k: usize = 0;
    assert(collections::string_texts(seen@) =~= Seq::empty());
    while k < words.len()
        invariant
            k <= words@.len(),
            all == checks::word_views(words@),
            checks::words_before(all, report.limit()),
            report.wf(),
            report.limit() == old(report).limit(),
            report.limit() <= usize::MAX,
            report@ + redeclared_from(all, k as int, collections::string_texts(seen@)) == goal,
        decreases words@.len() - k,
    {
        let w = &words[k];
        assert(all[k as int] == w@);
        let name = string_of(w.text.as_slice());
        if has_text(&seen, name.as_str()) {
            let ghost before = report@;
            let message = phrase(
                "layer collection '",
                w.text.as_slice(),
                "' is declared more than once",
            );
            report.push(RULE_LAYER_COLLECTIONS, w.at, w.at + w.text.len(), message.as_slice());
            proof {
                let rest = redeclared_from(all, k + 1, collections::string_texts(seen@));
                let f = report@.last();
                assert(before + (seq![f] + rest) =~= before.push(f) + rest);
            }
        } else {
            push_text(&mut seen, name);
        }
        k += 1;
    }
    assert(report@ + Seq::<FindingView>::empty() =~= report@);
}

/// A text with a prefix.
fn prefixed(prefix: &str, rest: &[char]) -> (r: Vec<char>)
    ensures
        r@ == prefix@ + rest@,
{
    let mut out = chars_of(prefix);
    append_chars(&mut out, rest);
    out
}

fn check_needed(
    statements: &Vec<Statement>,
    rule: usize,
    prefix: &str,
    collection: &[char],
    size: usize,
    report: &mut Report,
    Ghost(source): Ghost<Seq<char>>,
)
    requires
        rule < RULE_COUNT,
        old(report).wf(),
        old(report).limit() == source.len(),
        source.len() == size,
        statements::statement_views(statements@) == statements::statements_of(source),
        statements::statements_inside(source, statements::statement_views(statements@)),
    ensures
        final(report)@ == old(report)@ + needed_findings(source, rule, prefix@, collection@),
        final(report).wf(),
        final(report).limit() == old(report).limit(),
{
    let ghost before = report@;
    let name = prefixed(prefix, collection);
    match find_assignment(statements, name.as_slice()) {
        Some(a) => {
            assert(statements::statement_inside(source, StatementView::Assignment(a@)));
            let filled = match scalar_value(a.value.as_slice()) {
                Some(value) => value.len() > 0,
                None => false,
            };
            if !filled {
                let message = phrase("", name.as_slice(), " must not be empty");
                report.push(rule, a.name_at, a.name_at + a.name.len(), message.as_slice());
            }
        },
        None => {
            let message = long_phrase(
                "layer collection '",
                collection,
                "' is missing ",
                name.as_slice(),
                "",
            );
            report.push(rule, size, size, message.as_slice());
        },
    }
    assert(report@ =~= before + needed_findings(source, rule, prefix@, collection@));
}

fn is_good_priority(value: &[char]) -> (r: bool)
    ensures
        r == good_priority(value@),
{
    match scalar_value(value) {
        Some(text) => contains_char(text.as_slice(), '$') || parse_i32(text.as_slice()).is_some(),
        None => false,
    }
}

fn check_priority(
    statements: &Vec<Statement>,
    collection: &[char],
    size: usize,
    report: &mut Report,
    Ghost(source): Ghost<Seq<char>>,
)
    requires
        old(report).wf(),
        old(report).limit() == source.len(),
        source.len() == size,
        statements::statement_views(statements@) == statements::statements_of(source),
        statements::statements_inside(source, statements::statement_views(statements@)),
    ensures
        final(report)@ == old(report)@ + priority_findings(source, collection@),
        final(report).wf(),
        final(report).limit() == old(report).limit(),
{
    let ghost before = report@;
    let name = prefixed("BBFILE_PRIORITY_", collection);
    match find_assignment(statements, name.as_slice()) {
        Some(a) => {
            assert(statements::statement_inside(source, StatementView::Assignment(a@)));
            if !is_good_priority(a.value.as_slice()) {
                let message = phrase("", name.as_slice(), " must be an integer");
                report.push(
                    RULE_LAYER_PRIORITY,
                    a.name_at,
                    a.name_at + a.name.len(),
                    message.as_slice(),
                );
            }
        },
        None => {
            let message = long_phrase(
                "layer collection '",
                collection,
                "' is missing ",
                name.as_slice(),
                "",
            );
            report.push(RULE_LAYER_PRIORITY, size, size, message.as_slice());
        },
    }
    assert(report@ =~= before + priority_findings(source, collection@));
}

fn check_unknown(
    words: &Vec<PlacedWord>,
    name: &[char],
    known: &Vec<String>,
    report: &mut Report,
)
    requires
        old(report).wf(),
        old(report).limit() <= usize::MAX,
        checks::words_before(checks::word_views(words@), old(report).limit()),
    ensures
        final(report)@ == old(report)@ + unknown_from(
            checks::word_views(words@),
            0,
            name@,
            collections::string_texts(known@),
        ),
        final(report).wf(),
        final(report).limit() == old(report).limit(),
{
    let ghost all = checks::word_views(words@);
    let ghost names = collections::string_texts(known@);
    let ghost goal = report@ + unknown_from(all, 0, name@, names);
    let mut k: usize = 0;
    while k < words.len()
        invariant
            k <= words@.len(),
            all == checks::word_views(words@),
            names == collections::string_texts(known@),
            checks::words_before(all, report.limit()),
            report.wf(),
            report.limit() == old(report).limit(),
            report.limit() <= usize::MAX,
            report@ + unknown_from(all, k as int, name@, names) == goal,
        decreases words@.len() - k,
    {
        let w = &words[k];
        assert(all[k as int] == w@);
        let version = starts_with(w.text.as_slice(), "(") || ends_with(w.text.as_slice(), ")");
        if !version && !has_text(known, string_of(w.text.as_slice()).as_str()) {
            let ghost before = report@;
            let message = long_phrase(
                "",
                name,
                " references unknown layer collection '",
                w.text.as_slice(),
                "'",
            );
            report.push(RULE_LAYER_DEPENDS, w.at, w.at + w.text.len(), message.as_slice());
            proof {
                let rest = unknown_from(all, k + 1, name@, names);
                let f = report@.last();
                assert(before + (seq![f] + rest) =~= before.push(f) + rest);
            }
        }
        k += 1;
    }
    assert(report@ + Seq::<FindingView>::empty() =~= report@);
}

fn check_depends(
    statements: &Vec<Statement>,
    collection: &[char],
    known: &Vec<String>,
    report: &mut Report,
    Ghost(source): Ghost<Seq<char>>,
)
    requires
        old(report).wf(),
        old(report).limit() == source.len(),
        source.len() <= usize::MAX,
        statements::statement_views(statements@) == statements::statements_of(source),
        statements::statements_inside(source, statements::statement_views(statements@)),
    ensures
        final(report)@ == old(report)@ + depends_findings(
            source,
            collection@,
            collections::string_texts(known@),
        ),
        final(report).wf(),
        final(report).limit() == old(report).limit(),
{
    let name = prefixed("LAYERDEPENDS_", collection);
    match find_assignment(statements, name.as_slice()) {
        Some(a) => {
            assert(statements::statement_inside(source, StatementView::Assignment(a@)));
            let words = value_words(a);
            check_unknown(&words, name.as_slice(), known, report);
        },
        None => {
            assert(report@ + Seq::<FindingView>::empty() =~= report@);
        },
    }
}

fn check_collection(
    statements: &Vec<Statement>,
    collection: &[char],
    known: &Vec<String>,
    size: usize,
    report: &mut Report,
    Ghost(source): Ghost<Seq<char>>,
)
    requires
        old(report).wf(),
        old(report).limit() == source.len(),
        source.len() == size,
        statements::statement_views(statements@) == statements::statements_of(source),
        statements::statements_inside(source, statements::statement_views(statements@)),
    ensures
        final(report)@ == old(report)@ + collection_findings(
            source,
            collection@,
            collections::string_texts(known@),
        ),
        final(report).wf(),
        final(report).limit() == old(report).limit(),
{
    let ghost before = report@;
    check_needed(
        statements,
        RULE_LAYER_PATTERN,
        "BBFILE_PATTERN_",
        collection,
        size,
        report,
        Ghost(source),
    );
    check_priority(statements, collection, size, report, Ghost(source));
    check_needed(
        statements,
        RULE_LAYER_SERIES_COMPAT,
        "LAYERSERIES_COMPAT_",
        collection,
        size,
        report,
        Ghost(source),
    );
    check_depends(statements, collection, known, report, Ghost(source));
    assert(report@ =~= before + collection_findings(source, collection@, collections::string_texts(known@)));
}

fn names_of(words: &Vec<PlacedWord>) -> (r: Vec<String>)
    ensures
        collections::string_texts(r@) == checks::word_views(words@).map_values(word_text()),
{
    let mut out: Vec<String> = Vec::new();
    let mut k: usize = 0;
    while k < words.len()
        invariant
            k <= words@.len(),
            out@.len() == k,
            forall|j: int| 0 <= j < k ==> (#[trigger] out@[j])@ == words@[j]@.1,
        decreases words@.len() - k,
    {
        out.push(string_of(words[k].text.as_slice()));
        k += 1;
    }
    assert(collections::string_texts(out@) =~= checks::word_views(words@).map_values(word_text()));
    out
}

/// Reports what a layer configuration lacks, in a workspace with the
/// collections `known`.
pub fn check_layer_qa(
    statements: &Vec<Statement>,
    known: &Vec<String>,
    size: usize,
    report: &mut Report,
    Ghost(source): Ghost<Seq<char>>,
)
    requires
        old(report).wf(),
        old(report).limit() == source.len(),
        source.len() == size,
        statements::statement_views(statements@) == statements::statements_of(source),
        statements::statements_inside(source, statements::statement_views(statements@)),
    ensures
        final(report)@ == old(report)@ + layer_findings(source, collections::string_texts(known@)),
        final(report).wf(),
        final(report).limit() == old(report).limit(),
{
    let ghost first = report@;
    let ghost views = collections::string_texts(known@);
    let (words, computed) = declared_words(statements, Ghost(source));
    check_redeclared(&words, report);
    assert(checks::word_views(words@).len() == words@.len());
    if words.len() == 0 {
        if !computed {
            let message = chars_of("layer is missing a static BBFILE_COLLECTIONS declaration");
            report.push(RULE_LAYER_COLLECTIONS, size, size, message.as_slice());
        }
        assert(report@ =~= first + layer_findings(source, views));
        return;
    }
    let names = sort_distinct(TextOrder::Plain, &names_of(&words));
    let ghost all = collections::string_texts(names@);
    let ghost middle = report@;
    let mut k: usize = 0;
    while k < names.len()
        invariant
            k <= names@.len(),
            all == collections::string_texts(names@),
            views == collections::string_texts(known@),
            source.len() == size,
            statements::statement_views(statements@) == statements::statements_of(source),
            statements::statements_inside(source, statements::statement_views(statements@)),
            report.wf(),
            report.limit() == source.len(),
            report@ + collections_checked(source, all, k as int, views) == middle
                + collections_checked(source, all, 0, views),
        decreases names@.len() - k,
    {
        assert(all[k as int] == names@[k as int]@);
        let ghost before = report@;
        let name = chars_of(names[k].as_str());
        check_collection(statements, name.as_slice(), known, size, report, Ghost(source));
        proof {
            let f = collection_findings(source, all[k as int], views);
            let rest = collections_checked(source, all, k + 1, views);
            assert(before + (f + rest) =~= (before + f) + rest);
        }
        k += 1;
    }
    assert(report@ + Seq::<FindingView>::empty() =~= report@);
    assert(report@ =~= first + layer_findings(source, views));
}

} // verus!
