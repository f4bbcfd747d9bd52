//! The lint rules for recipes.
use crate::checks;
use crate::collections;
use crate::conditions;
use crate::findings;
use crate::numbers;
use crate::paths;
use crate::statements;
use crate::text;
use crate::values;
use crate::checks::PlacedWord;
use crate::checks::long_phrase;
use crate::checks::phrase;
use crate::checks::value_words;
use crate::collections::has_text;
use crate::collections::push_text;
use crate::findings::FindingView;
use crate::findings::Report;
use crate::numbers::decimal_chars;
use crate::paths::has_extension;
use crate::paths::path_file_stem;
use crate::rules::RULE_COUNT;
use crate::rules::RULE_LICENSE_CHECKSUM;
use crate::rules::RULE_MISSING_DESCRIPTION;
use crate::rules::RULE_MISSING_LICENSE;
use crate::rules::RULE_MISSING_SUMMARY;
use crate::rules::RULE_PACKAGECONFIG;
use crate::rules::RULE_PACKAGECONFIG_FORMAT;
use crate::rules::RULE_PACKAGE_LIST;
use crate::rules::RULE_PACKAGE_SCOPE;
use crate::rules::RULE_RECIPE_NAME;
use crate::rules::RULE_RECIPE_VERSION;
use crate::rules::RULE_SOURCE_CHECKSUM;
use crate::rules::RULE_URI_PARAMETERS;
use crate::statements::AssignmentStatement;
use crate::statements::AssignmentView;
use crate::statements::Statement;
use crate::statements::StatementView;
use crate::text::CharClass;
use crate::text::chars_of;
use crate::text::contains_char;
use crate::text::eq_str;
use crate::text::find_str;
use crate::text::rfind_char;
use crate::text::same_chars;
use crate::text::split_words;
use crate::text::starts_with;
use crate::text::string_of;
use crate::text::trim;
use crate::values::has_valid_checksum;
use crate::values::is_remote_archive;
use crate::values::is_variable;
use crate::values::package_scope;
use crate::values::packageconfig_feature;
use crate::values::simple_quoted_value;
use crate::values::split_pieces;
use crate::values::wrong_parameters;
use vstd::prelude::*;
use vstd::slice::slice_subrange;

verus! {

// ---------------------------------------------------------------------------
// Presence of metadata
// ---------------------------------------------------------------------------
/// Whether a statement of `s` assigns the variable `name`.
pub open spec fn assigns(s: Seq<StatementView>, name: Seq<char>) -> bool {
    exists|k: int|
        0 <= k < s.len() && (#[trigger] s[k]) is Assignment && s[k]->Assignment_0.name == name
}

/// Whether a statement assigns the variable `name`.
pub fn has_assignment(statements: &Vec<Statement>, name: &str) -> (r: bool)
    ensures
        r == assigns(statements::statement_views(statements@), name@),
{
    let ghost all = statements::statement_views(statements@);
    let mut k: usize = 0;
    while k < statements.len()
        invariant
            k <= statements@.len(),
            all == statements::statement_views(statements@),
            forall|j: int|
                0 <= j < k ==> !((#[trigger] all[j]) is Assignment && all[j]->Assignment_0.name
                    == name@),
        decreases statements@.len() - k,
    {
        assert(all[k as int] == statements@[k as int]@);
        if let Statement::Assignment(a) = &statements[k] {
            if eq_str(a.name.as_slice(), name) {
                assert(all[k as int] is Assignment);
                return true;
            }
        }
        k += 1;
    }
    false
}

/// The finding on a recipe without the variable `name`.
pub open spec fn missing_finding(
    source: Seq<char>,
    rule: usize,
    name: Seq<char>,
    message: Seq<char>,
) -> Seq<FindingView> {
    if assigns(statements::statements_of(source), name) {
        Seq::empty()
    } else {
        seq![findings::finding(rule, source.len() as int, source.len() as int, message)]
    }
}

/// The findings on a recipe without the metadata that every recipe declares.
pub open spec fn metadata_findings(source: Seq<char>) -> Seq<FindingView> {
    missing_finding(
        source,
        RULE_MISSING_SUMMARY,
        "SUMMARY"@,
        "recipe is missing a SUMMARY assignment"@,
    ) + missing_finding(
        source,
        RULE_MISSING_DESCRIPTION,
        "DESCRIPTION"@,
        "recipe is missing a DESCRIPTION assignment"@,
    ) + missing_finding(
        source,
        RULE_MISSING_LICENSE,
        "LICENSE"@,
        "recipe is missing a LICENSE assignment"@,
    )
}

fn check_present(
    statements: &Vec<Statement>,
    rule: usize,
    name: &str,
    message: &str,
    report: &mut Report,
    size: usize,
    Ghost(source): Ghost<Seq<char>>,
)
    requires
        old(report).wf(),
        old(report).limit() == source.len(),
        source.len() == size,
        rule < RULE_COUNT,
        statements::statement_views(statements@) == statements::statements_of(source),
    ensures
        final(report)@ == old(report)@ + missing_finding(source, rule, name@, message@),
        final(report).wf(),
        final(report).limit() == old(report).limit(),
{
    let ghost before = report@;
    if !has_assignment(statements, name) {
        let text = chars_of(message);
        report.push(rule, size, size, text.as_slice());
    }
    assert(report@ =~= before + missing_finding(source, rule, name@, message@));
}

/// Reports a recipe without the metadata that every recipe declares.
pub fn check_recipe_metadata(
    statements: &Vec<Statement>,
    report: &mut Report,
    size: usize,
    Ghost(source): Ghost<Seq<char>>,
)
    requires
        old(report).wf(),
        old(report).limit() == source.len(),
        source.len() == size,
        statements::statement_views(statements@) == statements::statements_of(source),
    ensures
        final(report)@ == old(report)@ + metadata_findings(source),
        final(report).wf(),
        final(report).limit() == old(report).limit(),
{
    let ghost before = report@;
    check_present(
        statements,
        RULE_MISSING_SUMMARY,
        "SUMMARY",
        "recipe is missing a SUMMARY assignment",
        report,
        size,
        Ghost(source),
    );
    check_present(
        statements,
        RULE_MISSING_DESCRIPTION,
        "DESCRIPTION",
        "recipe is missing a DESCRIPTION assignment",
        report,
        size,
        Ghost(source),
    );
    check_present(
        statements,
        RULE_MISSING_LICENSE,
        "LICENSE",
        "recipe is missing a LICENSE assignment",
        report,
        size,
        Ghost(source),
    );
    assert(report@ =~= before + metadata_findings(source));
}

// ---------------------------------------------------------------------------
// Identity
// ---------------------------------------------------------------------------
/// Whether a part of a recipe's file name is written out.
pub open spec fn literal_part(t: Seq<char>) -> bool {
    t.len() > 0 && !t.contains('$') && !t.contains('%')
}

/// The name and the version that a recipe's file name gives.
pub open spec fn recipe_identity(path: Seq<char>) -> Option<(Seq<char>, Seq<char>)> {
    match paths::file_stem(path) {
        Some(stem) => {
            let u = text::rfind_before(stem, '_', stem.len() as int);
            if u >= 0 && literal_part(stem.take(u)) && literal_part(stem.skip(u + 1)) {
                Some((stem.take(u), stem.skip(u + 1)))
            } else {
                None
            }
        },
        None => None,
    }
}

/// The findings on an assignment that contradicts the recipe's file name.
pub open spec fn identity_findings(
    a: AssignmentView,
    name: Seq<char>,
    version: Seq<char>,
) -> Seq<FindingView> {
    match values::quoted_text(a.value) {
        Some(value) => if value.contains('$') {
            Seq::empty()
        } else if a.name == "PN"@ && value != name {
            seq![
                findings::finding(
                    RULE_RECIPE_NAME,
                    a.name_at,
                    checks::name_end(a),
                    "PN '"@ + value + "' does not match recipe filename name '"@ + name + "'"@,
                ),
            ]
        } else if a.name == "PV"@ && value != version {
            seq![
                findings::finding(
                    RULE_RECIPE_VERSION,
                    a.name_at,
                    checks::name_end(a),
                    "PV '"@ + value + "' does not match recipe filename version '"@ + version
                        + "'"@,
                ),
            ]
        } else {
            Seq::empty()
        },
        None => Seq::empty(),
    }
}

/// The findings on the assignments of `s[k..]` that contradict the recipe's
/// file name.
pub open spec fn identity_from(
    s: Seq<StatementView>,
    k: int,
    name: Seq<char>,
    version: Seq<char>,
) -> Seq<FindingView>
    decreases s.len() - k,
{
    if k < 0 || k >= s.len() {
        Seq::empty()
    } else {
        match s[k] {
            StatementView::Assignment(a) => identity_findings(a, name, version) + identity_from(
                s,
                k + 1,
                name,
                version,
            ),
            _ => identity_from(s, k + 1, name, version),
        }
    }
}

/// The findings on assignments that contradict the recipe's file name.
pub open spec fn recipe_identity_findings(s: Seq<StatementView>, path: Seq<char>) -> Seq<
    FindingView,
> {
    match recipe_identity(path) {
        Some((name, version)) => identity_from(s, 0, name, version),
        None => Seq::empty(),
    }
}

fn check_identity(
    a: &AssignmentStatement,
    name: &[char],
    version: &[char],
    report: &mut Report,
)
    requires
        old(report).wf(),
        checks::assignment_in(a@, old(report).limit()),
        old(report).limit() <= usize::MAX,
    ensures
        final(report)@ == old(report)@ + identity_findings(a@, name@, version@),
        final(report).wf(),
        final(report).limit() == old(report).limit(),
{
    let ghost before = report@;
    proof {
        reveal_strlit("PN");
        reveal_strlit("PV");
        assert("PN"@[1] != "PV"@[1]);
        assert(before + Seq::<FindingView>::empty() =~= before);
    }
    match simple_quoted_value(a.value.as_slice()) {
        Some((s, e)) => {
            let value = slice_subrange(a.value.as_slice(), s, e);
            if contains_char(value, '$') {
                return;
            }
            if eq_str(a.name.as_slice(), "PN") && !same_chars(value, name) {
                let message = long_phrase(
                    "PN '",
                    value,
                    "' does not match recipe filename name '",
                    name,
                    "'",
                );
                report.push(
                    RULE_RECIPE_NAME,
                    a.name_at,
                    a.name_at + a.name.len(),
                    message.as_slice(),
                );
            }
            if eq_str(a.name.as_slice(), "PV") && !same_chars(value, version) {
                let message = long_phrase(
                    "PV '",
                    value,
                    "' does not match recipe filename version '",
                    version,
                    "'",
                );
                report.push(
                    RULE_RECIPE_VERSION,
                    a.name_at,
                    a.name_at + a.name.len(),
                    message.as_slice(),
                );
            }
            assert(report@ =~= before + identity_findings(a@, name@, version@));
        },
        None => {},
    }
}

fn is_literal_part(t: &[char]) -> (r: bool)
    ensures
        r == literal_part(t@),
{
    t.len() > 0 && !contains_char(t, '$') && !contains_char(t, '%')
}

/// Reports assignments that contradict the recipe's file name.
fn check_recipe_identity(
    statements: &Vec<Statement>,
    path: &str,
    report: &mut Report,
    Ghost(source): Ghost<Seq<char>>,
)
    requires
        old(report).wf(),
        old(report).limit() == source.len(),
        source.len() <= usize::MAX,
        statements::statements_inside(source, statements::statement_views(statements@)),
    ensures
        final(report)@ == old(report)@ + recipe_identity_findings(
            statements::statement_views(statements@),
            path@,
        ),
        final(report).wf(),
        final(report).limit() == old(report).limit(),
{
    assert(report@ + Seq::<FindingView>::empty() =~= report@);
    let stem = match path_file_stem(path) {
        Some(stem) => chars_of(stem.as_str()),
        None => {
            return;
        },
    };
    let u = match rfind_char(stem.as_slice(), '_', stem.len()) {
        Some(u) => u,
        None => {
            return;
        },
    };
    let name = slice_subrange(stem.as_slice(), 0, u);
    let version = slice_subrange(stem.as_slice(), u + 1, stem.len());
    assert(name@ =~= stem@.take(u as int));
    assert(version@ =~= stem@.skip(u + 1));
    if !is_literal_part(name) || !is_literal_part(version) {
        return;
    }
    let ghost all = statements::statement_views(statements@);
    let ghost goal = report@ + identity_from(all, 0, name@, version@);
    assert(recipe_identity(path@) == Some((name@, version@)));
    let mut k: usize = 0;
    while k < statements.len()
        invariant
            k <= statements@.len(),
            all == statements::statement_views(statements@),
            statements::statements_inside(source, all),
            source.len() <= usize::MAX,
            report.wf(),
            report.limit() == source.len(),
            old(report).limit() == source.len(),
            report@ + identity_from(all, k as int, name@, version@) == goal,
        decreases statements@.len() - k,
    {
        assert(all[k as int] == statements@[k as int]@);
        if let Statement::Assignment(a) = &statements[k] {
            let ghost before = report@;
            assert(statements::statement_inside(source, all[k as int]));
            check_identity(a, name, version, report);
            proof {
                let found = identity_findings(a@, name@, version@);
                let rest = identity_from(all, k + 1, name@, version@);
                assert(before + (found + rest) =~= (before + found) + rest);
            }
        }
        k += 1;
    }
    assert(report@ + Seq::<FindingView>::empty() =~= report@);
}

// ---------------------------------------------------------------------------
// Checksums
// ---------------------------------------------------------------------------
/// The last assignment of the variable `name` in `s[..n]`.
pub open spec fn last_assignment(s: Seq<StatementView>, name: Seq<char>, n: int) -> Option<
    AssignmentView,
>
    decreases n,
{
    if n <= 0 || n > s.len() {
        None
    } else {
        match s[n - 1] {
            StatementView::Assignment(a) => if a.name == name {
                Some(a)
            } else {
                last_assignment(s, name, n - 1)
            },
            _ => last_assignment(s, name, n - 1),
        }
    }
}

fn find_last_assignment<'a>(statements: &'a Vec<Statement>, name: &str) -> (r: Option<
    &'a AssignmentStatement,
>)
    ensures
        match r {
            Some(a) => last_assignment(
                statements::statement_views(statements@),
                name@,
                statements@.len() as int,
            ) == Some(a@) && exists|k: int|
                0 <= k < statements@.len() && #[trigger] statements::statement_views(statements@)[k]
                    == StatementView::Assignment(a@),
            None => last_assignment(statements::statement_views(statements@), name@, statements@.len() as int)
                is None,
        },
{
    let ghost all = statements::statement_views(statements@);
    let mut n: usize = statements.len();
    while n > 0
        invariant
            n <= statements@.len(),
            all == statements::statement_views(statements@),
            last_assignment(all, name@, statements@.len() as int) == last_assignment(
                all,
                name@,
                n as int,
            ),
        decreases n,
    {
        assert(all[n - 1] == statements@[n - 1]@);
        if let Statement::Assignment(a) = &statements[n - 1] {
            if eq_str(a.name.as_slice(), name) {
                return Some(a);
            }
        }
        n -= 1;
    }
    None
}

/// Whether a license value says that the license is not open.
pub open spec fn closed_license(value: Seq<char>) -> bool {
    text::word_texts(value, CharClass::Ascii).contains("CLOSED"@)
}

/// Whether a license value says that the license is not open.
pub fn is_closed_license(value: &[char]) -> (r: bool)
    ensures
        r == closed_license(value@),
{
    let words = split_words(value, CharClass::Ascii);
    let ghost texts = text::word_texts(value@, CharClass::Ascii);
    let mut k: usize = 0;
    while k < words.len()
        invariant
            k <= words@.len(),
            texts == text::word_texts(value@, CharClass::Ascii),
            text::ranges_match(words@, text::words_of(value@, CharClass::Ascii)),
            text::ranges_inside(words@, value@.len() as int),
            forall|j: int| 0 <= j < k ==> #[trigger] texts[j] != "CLOSED"@,
        decreases words@.len() - k,
    {
        let (a, b) = words[k];
        let word = slice_subrange(value, a, b);
        assert(texts[k as int] == word@);
        if eq_str(word, "CLOSED") {
            return true;
        }
        k += 1;
    }
    false
}

pub open spec fn file_uri(uri: Seq<char>) -> bool {
    text::has_prefix(uri, "file://"@)
}

/// Whether a license file has no checksum of the right form.
pub open spec fn unchecked_license(uri: Seq<char>) -> bool {
    file_uri(uri) && !values::valid_checksum(uri, "md5"@) && !values::valid_checksum(uri, "sha256"@)
}

/// Whether a license file has no checksum of the right form.
pub fn is_unchecked_license(uri: &[char]) -> (r: bool)
    ensures
        r == unchecked_license(uri@),
{
    starts_with(uri, "file://") && !has_valid_checksum(uri, "md5") && !has_valid_checksum(
        uri,
        "sha256",
    )
}

/// The findings on the license files among `words[k..]`.
pub open spec fn license_files_from(words: Seq<(int, Seq<char>)>, k: int) -> Seq<FindingView>
    decreases words.len() - k,
{
    if k < 0 || k >= words.len() {
        Seq::empty()
    } else if unchecked_license(words[k].1) {
        seq![
            findings::finding(
                RULE_LICENSE_CHECKSUM,
                words[k].0,
                checks::word_end(words[k]),
                "license file URI '"@ + words[k].1
                    + "' is missing a valid md5 or sha256 checksum"@,
            ),
        ] + license_files_from(words, k + 1)
    } else {
        license_files_from(words, k + 1)
    }
}

/// Whether one of the words is a file address.
pub open spec fn names_file(words: Seq<(int, Seq<char>)>) -> bool {
    exists|k: int| 0 <= k < words.len() && file_uri((#[trigger] words[k]).1)
}

/// The findings on the checksums of the license files of a recipe.
pub open spec fn license_findings(s: Seq<StatementView>) -> Seq<FindingView> {
    match last_assignment(s, "LICENSE"@, s.len() as int) {
        Some(license) => match values::quoted_text(license.value) {
            Some(value) => if closed_license(value) {
                Seq::empty()
            } else {
                match last_assignment(s, "LIC_FILES_CHKSUM"@, s.len() as int) {
                    Some(checksum) => checksum_findings(checksum),
                    None => seq![
                        findings::finding(
                            RULE_LICENSE_CHECKSUM,
                            license.name_at,
                            checks::name_end(license),
                            "non-CLOSED recipe is missing LIC_FILES_CHKSUM"@,
                        ),
                    ],
                }
            },
            None => Seq::empty(),
        },
        None => Seq::empty(),
    }
}

/// The findings on the license files that an assignment lists.
pub open spec fn checksum_findings(a: AssignmentView) -> Seq<FindingView> {
    match values::quoted_text(a.value) {
        Some(value) => license_files_from(checks::assigned_words(a), 0) + if !names_file(checks::assigned_words(a))
            && text::trimmed(value, CharClass::Whitespace).len() > 0 {
            seq![
                findings::finding(
                    RULE_LICENSE_CHECKSUM,
                    a.name_at,
                    checks::name_end(a),
                    "LIC_FILES_CHKSUM must contain at least one static file:// entry"@,
                ),
            ]
        } else {
            Seq::empty()
        },
        None => Seq::empty(),
    }
}

/// Reports the license files without a checksum.
fn check_license_files(words: &Vec<PlacedWord>, report: &mut Report)
    requires
        old(report).wf(),
        old(report).limit() <= usize::MAX,
        checks::words_before(checks::word_views(words@), old(report).limit()),
    ensures
        final(report)@ == old(report)@ + license_files_from(checks::word_views(words@), 0),
        final(report).wf(),
        final(report).limit() == old(report).limit(),
{
    let ghost all = checks::word_views(words@);
    let ghost goal = report@ + license_files_from(all, 0);
    let mut k: usize = 0;
    while k < words.len()
        invariant
            k <= words@.len(),
            all == checks::word_views(words@),
            checks::words_before(all, report.limit()),
            report.wf(),
            report.limit() == old(report).limit(),
            report.limit() <= usize::MAX,
            report@ + license_files_from(all, k as int) == goal,
        decreases words@.len() - k,
    {
        let w = &words[k];
        assert(all[k as int] == w@);
        if is_unchecked_license(w.text.as_slice()) {
            let ghost before = report@;
            let message = phrase(
                "license file URI '",
                w.text.as_slice(),
                "' is missing a valid md5 or sha256 checksum",
            );
            report.push(RULE_LICENSE_CHECKSUM, w.at, w.at + w.text.len(), message.as_slice());
            proof {
                let rest = license_files_from(all, k + 1);
                let f = report@.last();
                assert(before + (seq![f] + rest) =~= before.push(f) + rest);
            }
        }
        k += 1;
    }
    assert(report@ + Seq::<FindingView>::empty() =~= report@);
}

fn has_file(words: &Vec<PlacedWord>) -> (r: bool)
    ensures
        r == names_file(checks::word_views(words@)),
{
    let ghost all = checks::word_views(words@);
    let mut k: usize = 0;
    while k < words.len()
        invariant
            k <= words@.len(),
            all == checks::word_views(words@),
            forall|j: int| 0 <= j < k ==> !file_uri((#[trigger] all[j]).1),
        decreases words@.len() - k,
    {
        assert(all[k as int] == words@[k as int]@);
        if starts_with(words[k].text.as_slice(), "file://") {
            assert(file_uri(all[k as int].1));
            return true;
        }
        k += 1;
    }
    false
}

/// Reports the license files that have no checksum.
fn check_license_checksum(
    statements: &Vec<Statement>,
    report: &mut Report,
    Ghost(source): Ghost<Seq<char>>,
)
    requires
        old(report).wf(),
        old(report).limit() == source.len(),
        source.len() <= usize::MAX,
        statements::statements_inside(source, statements::statement_views(statements@)),
    ensures
        final(report)@ == old(report)@ + license_findings(statements::statement_views(statements@)),
        final(report).wf(),
        final(report).limit() == old(report).limit(),
{
    let ghost before = report@;
    let ghost all = statements::statement_views(statements@);
    assert(before + Seq::<FindingView>::empty() =~= before);
    let license = match find_last_assignment(statements, "LICENSE") {
        Some(license) => license,
        None => {
            return;
        },
    };
    let (s, e) = match simple_quoted_value(license.value.as_slice()) {
        Some(range) => range,
        None => {
            return;
        },
    };
    if is_closed_license(slice_subrange(license.value.as_slice(), s, e)) {
        return;
    }
    assert(statements::statement_inside(source, StatementView::Assignment(license@)));
    let checksum = match find_last_assignment(statements, "LIC_FILES_CHKSUM") {
        Some(checksum) => checksum,
        None => {
            let message = chars_of("non-CLOSED recipe is missing LIC_FILES_CHKSUM");
            report.push(
                RULE_LICENSE_CHECKSUM,
                license.name_at,
                license.name_at + license.name.len(),
                message.as_slice(),
            );
            assert(report@ =~= before + license_findings(all));
            return;
        },
    };
    assert(statements::statement_inside(source, StatementView::Assignment(checksum@)));
    let (s, e) = match simple_quoted_value(checksum.value.as_slice()) {
        Some(range) => range,
        None => {
            return;
        },
    };
    let value = slice_subrange(checksum.value.as_slice(), s, e);
    let words = value_words(checksum);
    check_license_files(&words, report);
    if !has_file(&words) && trim(value, CharClass::Whitespace).len() > 0 {
        let message = chars_of("LIC_FILES_CHKSUM must contain at least one static file:// entry");
        report.push(
            RULE_LICENSE_CHECKSUM,
            checksum.name_at,
            checksum.name_at + checksum.name.len(),
            message.as_slice(),
        );
    }
    assert(report@ =~= before + license_findings(all));
}

/// Whether a remote archive has no checksum of the right form.
pub open spec fn unchecked_source(uri: Seq<char>) -> bool {
    values::remote_archive(uri) && !values::valid_checksum(uri, "md5sum"@) && !values::valid_checksum(uri, "sha256sum"@)
}

/// Whether a remote archive has no checksum of the right form.
pub fn is_unchecked_source(uri: &[char]) -> (r: bool)
    ensures
        r == unchecked_source(uri@),
{
    is_remote_archive(uri) && !has_valid_checksum(uri, "md5sum") && !has_valid_checksum(
        uri,
        "sha256sum",
    )
}

/// The findings on the remote archives among `words[k..]`.
pub open spec fn archives_from(words: Seq<(int, Seq<char>)>, k: int) -> Seq<FindingView>
    decreases words.len() - k,
{
    if k < 0 || k >= words.len() {
        Seq::empty()
    } else if unchecked_source(words[k].1) {
        seq![
            findings::finding(
                RULE_SOURCE_CHECKSUM,
                words[k].0,
                checks::word_end(words[k]),
                "remote source URI '"@ + words[k].1
                    + "' is missing a valid md5sum or sha256sum"@,
            ),
        ] + archives_from(words, k + 1)
    } else {
        archives_from(words, k + 1)
    }
}

/// Reports the remote archives without a checksum.
fn check_archives(words: &Vec<PlacedWord>, report: &mut Report)
    requires
        old(report).wf(),
        old(report).limit() <= usize::MAX,
        checks::words_before(checks::word_views(words@), old(report).limit()),
    ensures
        final(report)@ == old(report)@ + archives_from(checks::word_views(words@), 0),
        final(report).wf(),
        final(report).limit() == old(report).limit(),
{
    let ghost all = checks::word_views(words@);
    let ghost goal = report@ + archives_from(all, 0);
    let mut k: usize = 0;
    while k < words.len()
        invariant
            k <= words@.len(),
            all == checks::word_views(words@),
            checks::words_before(all, report.limit()),
            report.wf(),
            report.limit() == old(report).limit(),
            report.limit() <= usize::MAX,
            report@ + archives_from(all, k as int) == goal,
        decreases words@.len() - k,
    {
        let w = &words[k];
        assert(all[k as int] == w@);
        if is_unchecked_source(w.text.as_slice()) {
            let ghost before = report@;
            let message = phrase(
                "remote source URI '",
                w.text.as_slice(),
                "' is missing a valid md5sum or sha256sum",
            );
            report.push(RULE_SOURCE_CHECKSUM, w.at, w.at + w.text.len(), message.as_slice());
            proof {
                let rest = archives_from(all, k + 1);
                let f = report@.last();
                assert(before + (seq![f] + rest) =~= before.push(f) + rest);
            }
        }
        k += 1;
    }
    assert(report@ + Seq::<FindingView>::empty() =~= report@);
}

/// The findings of this kind in the assignments of `s[k..]`.
pub open spec fn sources_from(s: Seq<StatementView>, k: int) -> Seq<FindingView>
    decreases s.len() - k,
{
    if k < 0 || k >= s.len() {
        Seq::empty()
    } else {
        match s[k] {
            StatementView::Assignment(a) => if values::names_variable(a.name, "SRC_URI"@) {
                archives_from(checks::assigned_words(a), 0) + sources_from(s, k + 1)
            } else {
                sources_from(s, k + 1)
            },
            _ => sources_from(s, k + 1),
        }
    }
}

/// Reports the remote archives without a checksum.
fn check_source_checksums(statements: &Vec<Statement>, report: &mut Report, Ghost(source): Ghost<Seq<char>>)
    requires
        old(report).wf(),
        old(report).limit() == source.len(),
        source.len() <= usize::MAX,
        statements::statements_inside(source, statements::statement_views(statements@)),
    ensures
        final(report)@ == old(report)@ + sources_from(statements::statement_views(statements@), 0),
        final(report).wf(),
        final(report).limit() == old(report).limit(),
{
    let ghost all = statements::statement_views(statements@);
    let ghost goal = report@ + sources_from(all, 0);
    let mut k: usize = 0;
    while k < statements.len()
        invariant
            k <= statements@.len(),
            all == statements::statement_views(statements@),
            statements::statements_inside(source, all),
            source.len() <= usize::MAX,
            report.wf(),
            report.limit() == source.len(),
            old(report).limit() == source.len(),
            report@ + sources_from(all, k as int) == goal,
        decreases statements@.len() - k,
    {
        assert(all[k as int] == statements@[k as int]@);
        if let Statement::Assignment(a) = &statements[k] {
            assert(statements::statement_inside(source, all[k as int]));
            if is_variable(a.name.as_slice(), "SRC_URI") {
                let words = value_words(a);
                let ghost before = report@;
                check_archives(&words, report);
                proof {
                    let found = archives_from(checks::word_views(words@), 0);
                    let rest = sources_from(all, k + 1);
                    assert(before + (found + rest) =~= (before + found) + rest);
                }
            }
        }
        k += 1;
    }
    assert(report@ + Seq::<FindingView>::empty() =~= report@);
}

// ---------------------------------------------------------------------------
// PACKAGECONFIG
// ---------------------------------------------------------------------------
/// The findings on a `PACKAGECONFIG` flag with a wrong number of fields.
pub open spec fn fields_findings(a: AssignmentView) -> Seq<FindingView> {
    match (values::config_feature(a.name), values::quoted_text(a.value)) {
        (Some((f, e)), Some(value)) => if value.contains('$') || 3 <= values::pieces(value, ',').len()
            <= 4 {
            Seq::empty()
        } else {
            seq![
                findings::finding(
                    RULE_PACKAGECONFIG_FORMAT,
                    a.name_at,
                    checks::name_end(a),
                    "PACKAGECONFIG feature '"@ + a.name.subrange(f, e) + "' has "@ + numbers::decimal(
                        values::pieces(value, ',').len(),
                    ) + " fields; expected 3 or 4"@,
                ),
            ]
        },
        _ => Seq::empty(),
    }
}

/// The findings on the `PACKAGECONFIG` flags of `s[k..]`.
pub open spec fn fields_from(s: Seq<StatementView>, k: int) -> Seq<FindingView>
    decreases s.len() - k,
{
    if k < 0 || k >= s.len() {
        Seq::empty()
    } else {
        match s[k] {
            StatementView::Assignment(a) => fields_findings(a) + fields_from(s, k + 1),
            _ => fields_from(s, k + 1),
        }
    }
}

/// The features that `s[k..]` enables.
pub open spec fn enabled_from(s: Seq<StatementView>, k: int) -> Seq<(int, Seq<char>)>
    decreases s.len() - k,
{
    if k < 0 || k >= s.len() {
        Seq::empty()
    } else {
        match s[k] {
            StatementView::Assignment(a) => if values::names_variable(a.name, "PACKAGECONFIG"@) {
                checks::assigned_words(a) + enabled_from(s, k + 1)
            } else {
                enabled_from(s, k + 1)
            },
            _ => enabled_from(s, k + 1),
        }
    }
}

/// The features that `s[k..]` defines.
pub open spec fn defined_from(s: Seq<StatementView>, k: int) -> Seq<Seq<char>>
    decreases s.len() - k,
{
    if k < 0 || k >= s.len() {
        Seq::empty()
    } else {
        match s[k] {
            StatementView::Assignment(a) => match values::config_feature(a.name) {
                Some((f, e)) => seq![a.name.subrange(f, e)] + defined_from(s, k + 1),
                None => defined_from(s, k + 1),
            },
            _ => defined_from(s, k + 1),
        }
    }
}

/// The findings on the features `words[k..]` that `defined` does not hold.
pub open spec fn undefined_from(
    words: Seq<(int, Seq<char>)>,
    k: int,
    defined: Seq<Seq<char>>,
) -> Seq<FindingView>
    decreases words.len() - k,
{
    if k < 0 || k >= words.len() {
        Seq::empty()
    } else if defined.contains(words[k].1) {
        undefined_from(words, k + 1, defined)
    } else {
        seq![
            findings::finding(
                RULE_PACKAGECONFIG,
                words[k].0,
                checks::word_end(words[k]),
                "PACKAGECONFIG feature '"@ + words[k].1 + "' has no PACKAGECONFIG["@ + words[k].1
                    + "] definition"@,
            ),
        ] + undefined_from(words, k + 1, defined)
    }
}

/// The findings on the `PACKAGECONFIG` features of a recipe.
pub open spec fn packageconfig_findings(s: Seq<StatementView>) -> Seq<FindingView> {
    fields_from(s, 0) + undefined_from(enabled_from(s, 0), 0, defined_from(s, 0))
}

/// Reports the features that are not defined.
fn check_defined(words: &Vec<PlacedWord>, defined: &Vec<String>, report: &mut Report)
    requires
        old(report).wf(),
        old(report).limit() <= usize::MAX,
        checks::words_before(checks::word_views(words@), old(report).limit()),
    ensures
        final(report)@ == old(report)@ + undefined_from(checks::word_views(words@), 0, collections::string_texts(defined@)),
        final(report).wf(),
        final(report).limit() == old(report).limit(),
{
    let ghost all = checks::word_views(words@);
    let ghost goal = report@ + undefined_from(all, 0, collections::string_texts(defined@));
    let mut k: usize = 0;
    while k < words.len()
        invariant
            k <= words@.len(),
            all == checks::word_views(words@),
            checks::words_before(all, report.limit()),
            report.wf(),
            report.limit() == old(report).limit(),
            report.limit() <= usize::MAX,
            report@ + undefined_from(all, k as int, collections::string_texts(defined@)) == goal,
        decreases words@.len() - k,
    {
        let w = &words[k];
        assert(all[k as int] == w@);
        if !has_text(defined, string_of(w.text.as_slice()).as_str()) {
            let ghost before = report@;
            let message = long_phrase(
                "PACKAGECONFIG feature '",
                w.text.as_slice(),
                "' has no PACKAGECONFIG[",
                w.text.as_slice(),
                "] definition",
            );
            report.push(RULE_PACKAGECONFIG, w.at, w.at + w.text.len(), message.as_slice());
            proof {
                let rest = undefined_from(all, k + 1, collections::string_texts(defined@));
                let f = report@.last();
                assert(before + (seq![f] + rest) =~= before.push(f) + rest);
            }
        }
        k += 1;
    }
    assert(report@ + Seq::<FindingView>::empty() =~= report@);
}

fn check_fields(a: &AssignmentStatement, report: &mut Report)
    requires
        old(report).wf(),
        checks::assignment_in(a@, old(report).limit()),
        old(report).limit() <= usize::MAX,
    ensures
        final(report)@ == old(report)@ + fields_findings(a@),
        final(report).wf(),
        final(report).limit() == old(report).limit(),
{
    let ghost before = report@;
    assert(before + Seq::<FindingView>::empty() =~= before);
    let (f, e) = match packageconfig_feature(a.name.as_slice()) {
        Some(range) => range,
        None => {
            return;
        },
    };
    match simple_quoted_value(a.value.as_slice()) {
        Some((s, t)) => {
            let value = slice_subrange(a.value.as_slice(), s, t);
            let fields = split_pieces(value, ',').len();
            if contains_char(value, '$') || (3 <= fields && fields <= 4) {
                return;
            }
            let count = decimal_chars(fields as u64);
            let message = long_phrase(
                "PACKAGECONFIG feature '",
                slice_subrange(a.name.as_slice(), f, e),
                "' has ",
                count.as_slice(),
                " fields; expected 3 or 4",
            );
            report.push(
                RULE_PACKAGECONFIG_FORMAT,
                a.name_at,
                a.name_at + a.name.len(),
                message.as_slice(),
            );
            assert(report@ =~= before + fields_findings(a@));
        },
        None => {},
    }
}

/// Reports the features of a recipe that are not defined, and the flags that
/// do not define them in full.
fn check_packageconfig(
    statements: &Vec<Statement>,
    report: &mut Report,
    Ghost(source): Ghost<Seq<char>>,
)
    requires
        old(report).wf(),
        old(report).limit() == source.len(),
        source.len() <= usize::MAX,
        statements::statements_inside(source, statements::statement_views(statements@)),
    ensures
        final(report)@ == old(report)@ + packageconfig_findings(statements::statement_views(statements@)),
        final(report).wf(),
        final(report).limit() == old(report).limit(),
{
    let ghost all = statements::statement_views(statements@);
    let ghost first = report@;
    let ghost goal = report@ + fields_from(all, 0);
    let mut enabled: Vec<PlacedWord> = Vec::new();
    let mut defined: Vec<String> = Vec::new();
    let mut k: usize = 0;
    proof {
        assert(checks::word_views(enabled@) =~= Seq::empty());
        assert(collections::string_texts(defined@) =~= Seq::empty());
        assert(checks::word_views(enabled@) + enabled_from(all, 0) =~= enabled_from(all, 0));
        assert(collections::string_texts(defined@) + defined_from(all, 0) =~= defined_from(all, 0));
    }
    while k < statements.len()
        invariant
            k <= statements@.len(),
            all == statements::statement_views(statements@),
            statements::statements_inside(source, all),
            source.len() <= usize::MAX,
            report.wf(),
            report.limit() == source.len(),
            old(report).limit() == source.len(),
            report@ + fields_from(all, k as int) == goal,
            checks::word_views(enabled@) + enabled_from(all, k as int) == enabled_from(all, 0),
            collections::string_texts(defined@) + defined_from(all, k as int) == defined_from(all, 0),
            checks::words_before(checks::word_views(enabled@), source.len() as int),
        decreases statements@.len() - k,
    {
        assert(all[k as int] == statements@[k as int]@);
        if let Statement::Assignment(a) = &statements[k] {
            assert(statements::statement_inside(source, all[k as int]));
            if is_variable(a.name.as_slice(), "PACKAGECONFIG") {
                let mut words = value_words(a);
                let ghost more = checks::word_views(words@);
                let ghost old_enabled = enabled@;
                let ghost old_words = words@;
                enabled.append(&mut words);
                proof {
                    assert(enabled@ =~= old_enabled + old_words);
                    assert(checks::word_views(enabled@) =~= checks::word_views(old_enabled) + more);
                    let rest = enabled_from(all, k + 1);
                    assert(checks::word_views(old_enabled) + (more + rest) =~= (checks::word_views(old_enabled)
                        + more) + rest);
                    assert forall|j: int| 0 <= j < checks::word_views(enabled@).len() implies 0 <= (
                    #[trigger] checks::word_views(enabled@)[j]).0 && checks::word_views(enabled@)[j].0
                        + checks::word_views(enabled@)[j].1.len() <= source.len() by {
                        if j < old_enabled.len() {
                            assert(checks::word_views(enabled@)[j] == checks::word_views(old_enabled)[j]);
                        } else {
                            assert(checks::word_views(enabled@)[j] == more[j - old_enabled.len()]);
                        }
                    }
                }
            }
            if let Some((f, e)) = packageconfig_feature(a.name.as_slice()) {
                let ghost old_defined = collections::string_texts(defined@);
                let feature = slice_subrange(a.name.as_slice(), f, e);
                push_text(&mut defined, string_of(feature));
                proof {
                    let rest = defined_from(all, k + 1);
                    assert(old_defined + (seq![feature@] + rest) =~= old_defined.push(feature@)
                        + rest);
                }
            }
            let ghost before = report@;
            check_fields(a, report);
            proof {
                let found = fields_findings(a@);
                let rest = fields_from(all, k + 1);
                assert(before + (found + rest) =~= (before + found) + rest);
            }
        }
        k += 1;
    }
    proof {
        assert(report@ + Seq::<FindingView>::empty() =~= report@);
        assert(checks::word_views(enabled@) + Seq::<(int, Seq<char>)>::empty() =~= checks::word_views(enabled@));
        assert(collections::string_texts(defined@) + Seq::<Seq<char>>::empty() =~= collections::string_texts(defined@));
    }
    check_defined(&enabled, &defined, report);
    assert(report@ =~= first + packageconfig_findings(all));
}

// ---------------------------------------------------------------------------
// Packages
// ---------------------------------------------------------------------------
/// The findings on the packages `words[k..]` that `seen` or an earlier word
/// lists.
pub open spec fn listed_from(
    words: Seq<(int, Seq<char>)>,
    k: int,
    seen: Seq<Seq<char>>,
) -> Seq<FindingView>
    decreases words.len() - k,
{
    if k < 0 || k >= words.len() {
        Seq::empty()
    } else if seen.contains(words[k].1) {
        seq![
            findings::finding(
                RULE_PACKAGE_LIST,
                words[k].0,
                checks::word_end(words[k]),
                "package '"@ + words[k].1 + "' is listed more than once in PACKAGES"@,
            ),
        ] + listed_from(words, k + 1, seen)
    } else {
        listed_from(words, k + 1, seen.push(words[k].1))
    }
}

/// The findings on the packages that the `PACKAGES` assignments of `s[k..]`
/// list again.
pub open spec fn packages_from(s: Seq<StatementView>, k: int, seen: Seq<Seq<char>>) -> Seq<
    FindingView,
>
    decreases s.len() - k,
{
    if k < 0 || k >= s.len() {
        Seq::empty()
    } else {
        match s[k] {
            StatementView::Assignment(a) => if a.name == "PACKAGES"@ {
                listed_from(checks::assigned_words(a), 0, seen) + packages_from(
                    s,
                    k + 1,
                    checks::with_words(seen, checks::assigned_words(a), 0),
                )
            } else {
                packages_from(s, k + 1, seen)
            },
            _ => packages_from(s, k + 1, seen),
        }
    }
}

/// The packages that the `PACKAGES` assignments of `s[k..]` list, after `seen`.
pub open spec fn packages_of(s: Seq<StatementView>, k: int, seen: Seq<Seq<char>>) -> Seq<Seq<char>>
    decreases s.len() - k,
{
    if k < 0 || k >= s.len() {
        seen
    } else {
        match s[k] {
            StatementView::Assignment(a) => if a.name == "PACKAGES"@ {
                packages_of(s, k + 1, checks::with_words(seen, checks::assigned_words(a), 0))
            } else {
                packages_of(s, k + 1, seen)
            },
            _ => packages_of(s, k + 1, seen),
        }
    }
}

/// The findings on a variable that is about a package not in `packages`.
pub open spec fn scope_findings(a: AssignmentView, packages: Seq<Seq<char>>) -> Seq<FindingView> {
    match values::scoped_package(a.name) {
        Some(package) => if package.contains('$') || packages.contains(package) {
            Seq::empty()
        } else {
            seq![
                findings::finding(
                    RULE_PACKAGE_SCOPE,
                    a.name_at,
                    checks::name_end(a),
                    ""@ + a.name + " is scoped to undeclared package '"@ + package + "'"@,
                ),
            ]
        },
        None => Seq::empty(),
    }
}

/// The findings on the variables of `s[k..]` that are about a package not in
/// `packages`.
pub open spec fn scopes_from(s: Seq<StatementView>, k: int, packages: Seq<Seq<char>>) -> Seq<
    FindingView,
>
    decreases s.len() - k,
{
    if k < 0 || k >= s.len() {
        Seq::empty()
    } else {
        match s[k] {
            StatementView::Assignment(a) => scope_findings(a, packages) + scopes_from(
                s,
                k + 1,
                packages,
            ),
            _ => scopes_from(s, k + 1, packages),
        }
    }
}

/// The findings on the packages of a recipe.
pub open spec fn package_findings(s: Seq<StatementView>) -> Seq<FindingView> {
    let packages = packages_of(s, 0, Seq::empty());
    packages_from(s, 0, Seq::empty()) + if packages.len() == 0 {
        Seq::empty()
    } else {
        scopes_from(s, 0, packages)
    }
}

fn check_listed(words: &Vec<PlacedWord>, seen: &mut Vec<String>, report: &mut Report)
    requires
        old(report).wf(),
        old(report).limit() <= usize::MAX,
        checks::words_before(checks::word_views(words@), old(report).limit()),
    ensures
        final(report)@ == old(report)@ + listed_from(
            checks::word_views(words@),
            0,
            collections::string_texts(old(seen)@),
        ),
        collections::string_texts(final(seen)@) == checks::with_words(collections::string_texts(old(seen)@), checks::word_views(words@), 0),
        final(report).wf(),
        final(report).limit() == old(report).limit(),
{
    let ghost all = checks::word_views(words@);
    let ghost goal = report@ + listed_from(all, 0, collections::string_texts(seen@));
    let ghost end = checks::with_words(collections::string_texts(seen@), all, 0);
    let mut k: usize = 0;
    while k < words.len()
        invariant
            k <= words@.len(),
            all == checks::word_views(words@),
            checks::words_before(all, report.limit()),
            report.wf(),
            report.limit() == old(report).limit(),
            report.limit() <= usize::MAX,
            report@ + listed_from(all, k as int, collections::string_texts(seen@)) == goal,
            checks::with_words(collections::string_texts(seen@), all, k as int) == end,
        decreases words@.len() - k,
    {
        let w = &words[k];
        assert(all[k as int] == w@);
        let package = string_of(w.text.as_slice());
        if has_text(seen, package.as_str()) {
            let ghost before = report@;
            let message = phrase(
                "package '",
                w.text.as_slice(),
                "' is listed more than once in PACKAGES",
            );
            report.push(RULE_PACKAGE_LIST, w.at, w.at + w.text.len(), message.as_slice());
            proof {
                let rest = listed_from(all, k + 1, collections::string_texts(seen@));
                let f = report@.last();
                assert(before + (seq![f] + rest) =~= before.push(f) + rest);
            }
        } else {
            push_text(seen, package);
        }
        k += 1;
    }
    assert(report@ + Seq::<FindingView>::empty() =~= report@);
}

fn check_scope(a: &AssignmentStatement, packages: &Vec<String>, report: &mut Report)
    requires
        old(report).wf(),
        checks::assignment_in(a@, old(report).limit()),
        old(report).limit() <= usize::MAX,
    ensures
        final(report)@ == old(report)@ + scope_findings(a@, collections::string_texts(packages@)),
        final(report).wf(),
        final(report).limit() == old(report).limit(),
{
    let ghost before = report@;
    assert(before + Seq::<FindingView>::empty() =~= before);
    if let Some(package) = package_scope(a.name.as_slice()) {
        if !contains_char(package.as_slice(), '$') && !has_text(
            packages,
            string_of(package.as_slice()).as_str(),
        ) {
            let message = long_phrase(
                "",
                a.name.as_slice(),
                " is scoped to undeclared package '",
                package.as_slice(),
                "'",
            );
            report.push(
                RULE_PACKAGE_SCOPE,
                a.name_at,
                a.name_at + a.name.len(),
                message.as_slice(),
            );
            assert(report@ =~= before + scope_findings(a@, collections::string_texts(packages@)));
        }
    }
}

/// Reports packages that are listed again, and variables about packages that
/// are not listed.
fn check_package_scope(
    statements: &Vec<Statement>,
    report: &mut Report,
    Ghost(source): Ghost<Seq<char>>,
)
    requires
        old(report).wf(),
        old(report).limit() == source.len(),
        source.len() <= usize::MAX,
        statements::statements_inside(source, statements::statement_views(statements@)),
    ensures
        final(report)@ == old(report)@ + package_findings(statements::statement_views(statements@)),
        final(report).wf(),
        final(report).limit() == old(report).limit(),
{
    let ghost all = statements::statement_views(statements@);
    let ghost first = report@;
    let ghost goal = report@ + packages_from(all, 0, Seq::empty());
    let mut packages: Vec<String> = Vec::new();
    let mut k: usize = 0;
    assert(collections::string_texts(packages@) =~= Seq::empty());
    while k < statements.len()
        invariant
            k <= statements@.len(),
            all == statements::statement_views(statements@),
            statements::statements_inside(source, all),
            source.len() <= usize::MAX,
            report.wf(),
            report.limit() == source.len(),
            old(report).limit() == source.len(),
            report@ + packages_from(all, k as int, collections::string_texts(packages@)) == goal,
            packages_of(all, k as int, collections::string_texts(packages@)) == packages_of(
                all,
                0,
                Seq::empty(),
            ),
        decreases statements@.len() - k,
    {
        assert(all[k as int] == statements@[k as int]@);
        if let Statement::Assignment(a) = &statements[k] {
            assert(statements::statement_inside(source, all[k as int]));
            if eq_str(a.name.as_slice(), "PACKAGES") {
                let words = value_words(a);
                let ghost before = report@;
                let ghost names = collections::string_texts(packages@);
                check_listed(&words, &mut packages, report);
                proof {
                    let found = listed_from(checks::word_views(words@), 0, names);
                    let rest = packages_from(all, k + 1, collections::string_texts(packages@));
                    assert(before + (found + rest) =~= (before + found) + rest);
                }
            }
        }
        k += 1;
    }
    assert(report@ + Seq::<FindingView>::empty() =~= report@);
    if packages.len() == 0 {
        assert(report@ =~= first + package_findings(all));
        return;
    }
    let ghost middle = report@;
    let ghost names = collections::string_texts(packages@);
    k = 0;
    while k < statements.len()
        invariant
            k <= statements@.len(),
            all == statements::statement_views(statements@),
            statements::statements_inside(source, all),
            source.len() <= usize::MAX,
            report.wf(),
            report.limit() == source.len(),
            old(report).limit() == source.len(),
            names == collections::string_texts(packages@),
            report@ + scopes_from(all, k as int, names) == middle + scopes_from(all, 0, names),
        decreases statements@.len() - k,
    {
        assert(all[k as int] == statements@[k as int]@);
        if let Statement::Assignment(a) = &statements[k] {
            assert(statements::statement_inside(source, all[k as int]));
            let ghost before = report@;
            check_scope(a, &packages, report);
            proof {
                let found = scope_findings(a@, names);
                let rest = scopes_from(all, k + 1, names);
                assert(before + (found + rest) =~= (before + found) + rest);
            }
        }
        k += 1;
    }
    assert(report@ + Seq::<FindingView>::empty() =~= report@);
    assert(report@ =~= first + package_findings(all));
}

// ---------------------------------------------------------------------------
// Parameters of fetch addresses
// ---------------------------------------------------------------------------
/// The finding on the wrong parameter `parameter` of the address `w`.
pub open spec fn parameter_finding(w: (int, Seq<char>), parameter: Seq<char>) -> FindingView {
    let at = w.0 + text::find_seq(w.1, parameter, 0);
    findings::finding(
        RULE_URI_PARAMETERS,
        at,
        at + parameter.len(),
        "SRC_URI entry '"@ + w.1 + "' has invalid or conflicting parameter '"@ + parameter + "'"@,
    )
}

/// The findings on the wrong parameters `bad[j..]` of the address `w`.
pub open spec fn parameters_from(w: (int, Seq<char>), bad: Seq<int>, j: int) -> Seq<FindingView>
    decreases bad.len() - j,
{
    if j < 0 || j >= bad.len() {
        Seq::empty()
    } else {
        seq![parameter_finding(w, values::pieces(w.1, ';')[bad[j]])] + parameters_from(w, bad, j + 1)
    }
}

/// The findings on the wrong parameters of the addresses `words[k..]`.
pub open spec fn addresses_from(words: Seq<(int, Seq<char>)>, k: int) -> Seq<FindingView>
    decreases words.len() - k,
{
    if k < 0 || k >= words.len() {
        Seq::empty()
    } else {
        parameters_from(words[k], values::bad_parameters(words[k].1), 0) + addresses_from(words, k + 1)
    }
}

proof fn lemma_found(t: Seq<char>, a: int, b: int, i: int)
    requires
        0 <= i <= a <= b <= t.len(),
    ensures
        i <= text::find_seq(t, t.subrange(a, b), i) <= a,
    decreases a - i,
{
    if t.subrange(i, i + t.subrange(a, b).len()) != t.subrange(a, b) {
        lemma_found(t, a, b, i + 1);
    }
}

fn check_parameters(w: &PlacedWord, report: &mut Report)
    requires
        old(report).wf(),
        w.at + w.text@.len() <= old(report).limit() <= usize::MAX,
    ensures
        final(report)@ == old(report)@ + parameters_from(w@, values::bad_parameters(w@.1), 0),
        final(report).wf(),
        final(report).limit() == old(report).limit(),
{
    let uri = w.text.as_slice();
    let ghost bad = values::bad_parameters(uri@);
    let ghost goal = report@ + parameters_from(w@, bad, 0);
    let wrong = wrong_parameters(uri);
    let mut j: usize = 0;
    while j < wrong.len()
        invariant
            j <= wrong@.len(),
            bad == values::bad_parameters(uri@),
            uri@ == w@.1,
            uri@.len() == w.text@.len(),
            wrong@.len() == bad.len(),
            forall|i: int|
                0 <= i < wrong@.len() ==> {
                    &&& (#[trigger] wrong@[i]).0 == bad[i]
                    &&& wrong@[i].0 < values::pieces(uri@, ';').len()
                    &&& wrong@[i].1.0 <= wrong@[i].1.1 <= uri@.len()
                    &&& values::pieces(uri@, ';')[wrong@[i].0 as int] == uri@.subrange(
                        wrong@[i].1.0 as int,
                        wrong@[i].1.1 as int,
                    )
                },
            w.at + w.text@.len() <= report.limit() <= usize::MAX,
            report.wf(),
            report.limit() == old(report).limit(),
            report@ + parameters_from(w@, bad, j as int) == goal,
        decreases wrong@.len() - j,
    {
        let (_, (a, b)) = wrong[j];
        assert(wrong@[j as int].0 == bad[j as int]);
        let parameter = slice_subrange(uri, a, b);
        proof {
            lemma_found(uri@, a as int, b as int, 0);
        }
        if let Some(found) = find_str(uri, parameter, 0) {
            let message = long_phrase(
                "SRC_URI entry '",
                uri,
                "' has invalid or conflicting parameter '",
                parameter,
                "'",
            );
            let ghost before = report@;
            let at = w.at + found;
            report.push(RULE_URI_PARAMETERS, at, at + parameter.len(), message.as_slice());
            proof {
                let rest = parameters_from(w@, bad, j + 1);
                let f = report@.last();
                assert(f == parameter_finding(w@, values::pieces(w@.1, ';')[bad[j as int]]));
                assert(before + (seq![f] + rest) =~= before.push(f) + rest);
            }
        }
        j += 1;
    }
    assert(report@ + Seq::<FindingView>::empty() =~= report@);
}

fn check_addresses(words: &Vec<PlacedWord>, report: &mut Report)
    requires
        old(report).wf(),
        old(report).limit() <= usize::MAX,
        checks::words_before(checks::word_views(words@), old(report).limit()),
    ensures
        final(report)@ == old(report)@ + addresses_from(checks::word_views(words@), 0),
        final(report).wf(),
        final(report).limit() == old(report).limit(),
{
    let ghost all = checks::word_views(words@);
    let ghost goal = report@ + addresses_from(all, 0);
    let mut k: usize = 0;
    while k < words.len()
        invariant
            k <= words@.len(),
            all == checks::word_views(words@),
            checks::words_before(all, report.limit()),
            report.wf(),
            report.limit() == old(report).limit(),
            report.limit() <= usize::MAX,
            report@ + addresses_from(all, k as int) == goal,
        decreases words@.len() - k,
    {
        assert(all[k as int] == words@[k as int]@);
        let ghost before = report@;
        check_parameters(&words[k], report);
        proof {
            let found = parameters_from(all[k as int], values::bad_parameters(all[k as int].1), 0);
            let rest = addresses_from(all, k + 1);
            assert(before + (found + rest) =~= (before + found) + rest);
        }
        k += 1;
    }
    assert(report@ + Seq::<FindingView>::empty() =~= report@);
}

/// The findings of this kind in the assignments of `s[k..]`.
pub open spec fn uri_parameters_from(s: Seq<StatementView>, k: int) -> Seq<FindingView>
    decreases s.len() - k,
{
    if k < 0 || k >= s.len() {
        Seq::empty()
    } else {
        match s[k] {
            StatementView::Assignment(a) => if values::names_variable(a.name, "SRC_URI"@) {
                addresses_from(checks::assigned_words(a), 0) + uri_parameters_from(s, k + 1)
            } else {
                uri_parameters_from(s, k + 1)
            },
            _ => uri_parameters_from(s, k + 1),
        }
    }
}

/// Reports the wrong parameters of fetch addresses.
fn check_uri_parameters(statements: &Vec<Statement>, report: &mut Report, Ghost(source): Ghost<Seq<char>>)
    requires
        old(report).wf(),
        old(report).limit() == source.len(),
        source.len() <= usize::MAX,
        statements::statements_inside(source, statements::statement_views(statements@)),
    ensures
        final(report)@ == old(report)@ + uri_parameters_from(statements::statement_views(statements@), 0),
        final(report).wf(),
        final(report).limit() == old(report).limit(),
{
    let ghost all = statements::statement_views(statements@);
    let ghost goal = report@ + uri_parameters_from(all, 0);
    let mut k: usize = 0;
    while k < statements.len()
        invariant
            k <= statements@.len(),
            all == statements::statement_views(statements@),
            statements::statements_inside(source, all),
            source.len() <= usize::MAX,
            report.wf(),
            report.limit() == source.len(),
            old(report).limit() == source.len(),
            report@ + uri_parameters_from(all, k as int) == goal,
        decreases statements@.len() - k,
    {
        assert(all[k as int] == statements@[k as int]@);
        if let Statement::Assignment(a) = &statements[k] {
            assert(statements::statement_inside(source, all[k as int]));
            if is_variable(a.name.as_slice(), "SRC_URI") {
                let words = value_words(a);
                let ghost before = report@;
                check_addresses(&words, report);
                proof {
                    let found = addresses_from(checks::word_views(words@), 0);
                    let rest = uri_parameters_from(all, k + 1);
                    assert(before + (found + rest) =~= (before + found) + rest);
                }
            }
        }
        k += 1;
    }
    assert(report@ + Seq::<FindingView>::empty() =~= report@);
}

// ---------------------------------------------------------------------------
// One recipe
// ---------------------------------------------------------------------------
/// The findings of the recipe rules on a text at `path`.
pub open spec fn recipe_findings(source: Seq<char>, path: Seq<char>) -> Seq<FindingView> {
    let s = statements::statements_of(source);
    if paths::extension(path) == Some("bb"@) {
        recipe_identity_findings(s, path) + license_findings(s) + sources_from(s, 0)
            + packageconfig_findings(s) + package_findings(s) + uri_parameters_from(s, 0)
    } else {
        Seq::empty()
    }
}

/// Applies the recipe rules to a text at `path`.
pub fn check_recipe_qa(
    statements: &Vec<Statement>,
    path: &str,
    report: &mut Report,
    Ghost(source): Ghost<Seq<char>>,
)
    requires
        old(report).wf(),
        old(report).limit() == source.len(),
        source.len() <= usize::MAX,
        statements::statement_views(statements@) == statements::statements_of(source),
        statements::statements_inside(source, statements::statement_views(statements@)),
    ensures
        final(report)@ == old(report)@ + recipe_findings(source, path@),
        final(report).wf(),
        final(report).limit() == old(report).limit(),
{
    let ghost before = report@;
    if !has_extension(path, "bb") {
        assert(before + Seq::<FindingView>::empty() =~= before);
        return;
    }
    check_recipe_identity(statements, path, report, Ghost(source));
    check_license_checksum(statements, report, Ghost(source));
    check_source_checksums(statements, report, Ghost(source));
    check_packageconfig(statements, report, Ghost(source));
    check_package_scope(statements, report, Ghost(source));
    check_uri_parameters(statements, report, Ghost(source));
    assert(report@ =~= before + recipe_findings(source, path@));
}

/// Whether `a` assigns the text `value`, quoted and without a reference, to the
/// variable `name`.
pub open spec fn assigns_literal(a: AssignmentView, name: Seq<char>, value: Seq<char>) -> bool {
    a.name == name && values::quoted_text(a.value) == Some(value) && !value.contains('$')
}

/// Whether an assignment of `s` gives `name` a written-out text other than
/// `expected`, and its name stands at `from` to `to`.
pub open spec fn contradicted_at(
    s: Seq<StatementView>,
    name: Seq<char>,
    expected: Seq<char>,
    from: int,
    to: int,
) -> bool {
    exists|k: int, value: Seq<char>|
        0 <= k < s.len() && #[trigger] contradicts(s[k], name, expected, value) && s[k]->Assignment_0.name_at
            == from && to == from + name.len()
}

/// Whether a statement gives `name` the written-out text `value`, which is not
/// the one expected.
pub open spec fn contradicts(
    s: StatementView,
    name: Seq<char>,
    expected: Seq<char>,
    value: Seq<char>,
) -> bool {
    s matches StatementView::Assignment(a) && assigns_literal(a, name, value) && value != expected
}

proof fn lemma_identity_from(s: Seq<StatementView>, k: int, name: Seq<char>, version: Seq<char>)
    requires
        0 <= k <= s.len(),
    ensures
        forall|i: int|
            0 <= i < identity_from(s, k, name, version).len() ==> ({
                let f = #[trigger] identity_from(s, k, name, version)[i];
                &&& f.rule == RULE_RECIPE_NAME || f.rule == RULE_RECIPE_VERSION
                &&& f.rule == RULE_RECIPE_NAME ==> contradicted_at(s, "PN"@, name, f.from, f.to)
                &&& f.rule == RULE_RECIPE_VERSION ==> contradicted_at(
                    s,
                    "PV"@,
                    version,
                    f.from,
                    f.to,
                )
            }),
        forall|j: int, value: Seq<char>|
            k <= j < s.len() && #[trigger] contradicts(s[j], "PN"@, name, value) ==> conditions::found_at(
                identity_from(s, k, name, version),
                RULE_RECIPE_NAME,
                s[j]->Assignment_0.name_at,
            ),
        forall|j: int, value: Seq<char>|
            k <= j < s.len() && #[trigger] contradicts(s[j], "PV"@, version, value) ==> conditions::found_at(
                identity_from(s, k, name, version),
                RULE_RECIPE_VERSION,
                s[j]->Assignment_0.name_at,
            ),
    decreases s.len() - k,
{
    reveal_strlit("PN");
    reveal_strlit("PV");
    assert("PN"@[1] == 'N' && "PV"@[1] == 'V');
    if k < s.len() {
        lemma_identity_from(s, k + 1, name, version);
        let rest = identity_from(s, k + 1, name, version);
        let all = identity_from(s, k, name, version);
        let first = match s[k] {
            StatementView::Assignment(a) => identity_findings(a, name, version),
            _ => Seq::empty(),
        };
        assert(all =~= first + rest);
        if first.len() > 0 {
            let a = s[k]->Assignment_0;
            let value = values::quoted_text(a.value)->0;
            if a.name == "PN"@ {
                assert(contradicts(s[k], "PN"@, name, value));
            } else {
                assert(contradicts(s[k], "PV"@, version, value));
            }
        }
        assert forall|i: int| 0 <= i < all.len() implies ({
            let f = #[trigger] all[i];
            &&& f.rule == RULE_RECIPE_NAME || f.rule == RULE_RECIPE_VERSION
            &&& f.rule == RULE_RECIPE_NAME ==> contradicted_at(s, "PN"@, name, f.from, f.to)
            &&& f.rule == RULE_RECIPE_VERSION ==> contradicted_at(s, "PV"@, version, f.from, f.to)
        }) by {
            if i >= first.len() {
                assert(all[i] == rest[i - first.len()]);
            } else {
                assert(all[i] == first[i]);
            }
        }
        assert forall|rule: usize, at: int| #[trigger] conditions::found_at(rest, rule, at) implies conditions::found_at(
            all,
            rule,
            at,
        ) by {
            let i = choose|i: int|
                0 <= i < rest.len() && (#[trigger] rest[i]).rule == rule && rest[i].from == at;
            assert(all[first.len() + i] == rest[i]);
        }
        assert forall|j: int, value: Seq<char>|
            k <= j < s.len() && #[trigger] contradicts(s[j], "PN"@, name, value) implies conditions::found_at(
            all,
            RULE_RECIPE_NAME,
            s[j]->Assignment_0.name_at,
        ) by {
            if j == k {
                assert(all[0] == first[0]);
            }
        }
        assert forall|j: int, value: Seq<char>|
            k <= j < s.len() && #[trigger] contradicts(s[j], "PV"@, version, value) implies conditions::found_at(
            all,
            RULE_RECIPE_VERSION,
            s[j]->Assignment_0.name_at,
        ) by {
            if j == k {
                assert(all[0] == first[0]);
            }
        }
    }
}

/// The findings on contradictions belong to the two rules on them.
pub proof fn lemma_identity_rules(s: Seq<StatementView>, path: Seq<char>, rule: usize, at: int)
    requires
        conditions::found_at(recipe_identity_findings(s, path), rule, at),
    ensures
        rule == RULE_RECIPE_NAME || rule == RULE_RECIPE_VERSION,
{
    let found = recipe_identity_findings(s, path);
    let i = choose|i: int|
        0 <= i < found.len() && (#[trigger] found[i]).rule == rule && found[i].from == at;
    if let Some((name, version)) = recipe_identity(path) {
        lemma_identity_from(s, 0, name, version);
        assert(found[i] == identity_from(s, 0, name, version)[i]);
    }
}

/// The name and the version of a recipe whose file is `name_version.bb` are
/// `name` and `version`.
proof fn lemma_identity_of(path: Seq<char>, name: Seq<char>, version: Seq<char>)
    requires
        paths::file_name(path) == Some(name + seq!['_'] + version + ".bb"@),
        literal_part(name),
        literal_part(version),
        !version.contains('_'),
    ensures
        recipe_identity(path) == Some((name, version)),
{
    reveal_strlit(".bb");
    let stem = name + seq!['_'] + version;
    let file = stem + ".bb"@;
    let n = stem.len() as int;
    assert(file.len() == n + 3);
    assert(file[n] == '.' && file[n + 1] == 'b' && file[n + 2] == 'b');
    text::lemma_rfind_unique(file, '.', n, file.len() as int);
    assert(file.take(n) =~= stem);
    let u = name.len() as int;
    assert forall|k: int| u < k < n implies #[trigger] stem[k] != '_' by {
        assert(stem[k] == version[k - u - 1]);
    }
    text::lemma_rfind_unique(stem, '_', u, n);
    assert(stem.take(u) =~= name);
    assert(stem.skip(u + 1) =~= version);
}

/// A recipe whose file is `name_version.bb` is told of a wrong version exactly
/// where it assigns `PV` a written-out text other than `version`, and of a wrong
/// name exactly where it assigns `PN` one other than `name`. Where what it
/// assigns agrees with its file name it gets neither finding.
pub proof fn law_identity_findings_are_contradictions(
    s: Seq<StatementView>,
    path: Seq<char>,
    name: Seq<char>,
    version: Seq<char>,
)
    requires
        paths::file_name(path) == Some(name + seq!['_'] + version + ".bb"@),
        literal_part(name),
        literal_part(version),
        !version.contains('_'),
    ensures
        ({
            let found = recipe_identity_findings(s, path);
            &&& forall|at: int|
                #[trigger] conditions::found_at(found, RULE_RECIPE_VERSION, at) <==> exists|to: int|
                    #[trigger] contradicted_at(s, "PV"@, version, at, to)
            &&& forall|at: int|
                #[trigger] conditions::found_at(found, RULE_RECIPE_NAME, at) <==> exists|to: int|
                    #[trigger] contradicted_at(s, "PN"@, name, at, to)
            &&& (forall|k: int, value: Seq<char>|
                0 <= k < s.len() ==> !(#[trigger] contradicts(s[k], "PN"@, name, value))) && (forall|
                k: int,
                value: Seq<char>,
            |
                0 <= k < s.len() ==> !(#[trigger] contradicts(s[k], "PV"@, version, value)))
                ==> found.len() == 0
        }),
{
    lemma_identity_of(path, name, version);
    lemma_identity_from(s, 0, name, version);
    let found = recipe_identity_findings(s, path);
    assert forall|at: int|
        #[trigger] conditions::found_at(found, RULE_RECIPE_VERSION, at) <==> exists|to: int|
            #[trigger] contradicted_at(s, "PV"@, version, at, to) by {
        if conditions::found_at(found, RULE_RECIPE_VERSION, at) {
            let i = choose|i: int|
                0 <= i < found.len() && (#[trigger] found[i]).rule == RULE_RECIPE_VERSION
                    && found[i].from == at;
            assert(contradicted_at(s, "PV"@, version, at, found[i].to));
        }
    }
    assert forall|at: int|
        #[trigger] conditions::found_at(found, RULE_RECIPE_NAME, at) <==> exists|to: int|
            #[trigger] contradicted_at(s, "PN"@, name, at, to) by {
        if conditions::found_at(found, RULE_RECIPE_NAME, at) {
            let i = choose|i: int|
                0 <= i < found.len() && (#[trigger] found[i]).rule == RULE_RECIPE_NAME
                    && found[i].from == at;
            assert(contradicted_at(s, "PN"@, name, at, found[i].to));
        }
    }
    if found.len() > 0 {
        let f = found[0];
        if f.rule == RULE_RECIPE_NAME {
            assert(contradicted_at(s, "PN"@, name, f.from, f.to));
        } else {
            assert(contradicted_at(s, "PV"@, version, f.from, f.to));
        }
    }
}

} // verus!
