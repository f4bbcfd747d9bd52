//! When the rules on recipes speak, said of the statements of the recipe.
use crate::checks;
use crate::conditions;
use crate::paths;
use crate::recipes;
use crate::statements;
use crate::text;
use crate::values;
use crate::findings::FindingView;
use crate::rules::RULE_LICENSE_CHECKSUM;
use crate::rules::RULE_MISSING_DESCRIPTION;
use crate::rules::RULE_MISSING_LICENSE;
use crate::rules::RULE_MISSING_SUMMARY;
use crate::rules::RULE_PACKAGECONFIG;
use crate::rules::RULE_PACKAGECONFIG_FORMAT;
use crate::rules::RULE_PACKAGE_LIST;
use crate::rules::RULE_PACKAGE_SCOPE;
use crate::rules::RULE_RECIPE_NAME;
use crate::rules::RULE_RECIPE_VERSION;
use crate::rules::RULE_SOURCE_CHECKSUM;
use crate::rules::RULE_URI_PARAMETERS;
use crate::statements::AssignmentView;
use crate::statements::StatementView;
use crate::text::CharClass;
use vstd::prelude::*;

verus! {

// ---------------------------------------------------------------------------
// Conditions
// ---------------------------------------------------------------------------
/// Whether a statement assigns the variable `name`.
pub open spec fn assigns_to(s: StatementView, name: Seq<char>) -> bool {
    s matches StatementView::Assignment(a) && a.name == name
}

/// Whether statement `k` assigns `name` and no later one does.
pub open spec fn assigns_last(s: Seq<StatementView>, k: int, name: Seq<char>) -> bool {
    &&& 0 <= k < s.len()
    &&& assigns_to(s[k], name)
    &&& forall|j: int| k < j < s.len() ==> !assigns_to(#[trigger] s[j], name)
}

/// A parameter `key=` followed by `n` hexadecimal digits.
pub open spec fn checksum_is(p: Seq<char>, key: Seq<char>, n: int) -> bool {
    let m = key.len() as int;
    &&& p.len() == m + 1 + n
    &&& p.take(m) == key
    &&& p[m] == '='
    &&& forall|k: int|
        m < k < p.len() ==> ('0' <= #[trigger] p[k] <= '9') || ('a' <= p[k] <= 'f') || ('A' <= p[k]
            <= 'F')
}

/// Whether one of the parameters of an address is a checksum under one of two
/// keys, the one of 32 digits and the other of 64.
pub open spec fn has_checksum(uri: Seq<char>, short: Seq<char>, long: Seq<char>) -> bool {
    exists|k: int|
        1 <= k < values::pieces(uri, ';').len() && (checksum_is(
            #[trigger] values::pieces(uri, ';')[k],
            short,
            32,
        ) || checksum_is(values::pieces(uri, ';')[k], long, 64))
}

pub open spec fn begins_with(t: Seq<char>, p: Seq<char>) -> bool {
    p.len() <= t.len() && t.take(p.len() as int) == p
}

/// Word `i` of a statement that assigns to `base` or a variant of it.
pub open spec fn has_word(s: StatementView, base: Seq<char>, i: int, at: int, word: Seq<char>) -> bool {
    s matches StatementView::Assignment(a) && conditions::variable_or_variant(a.name, base) && 0 <= i
        < checks::assigned_words(a).len() && checks::assigned_words(a)[i] == (at, word)
}

/// A remote archive of `SRC_URI` without a checksum.
pub open spec fn unchecked_archive(s: StatementView, i: int, at: int, uri: Seq<char>) -> bool {
    &&& has_word(s, "SRC_URI"@, i, at, uri)
    &&& begins_with(uri, "http://"@) || begins_with(uri, "https://"@) || begins_with(uri, "ftp://"@)
    &&& !has_checksum(uri, "md5sum"@, "sha256sum"@)
}

/// The license of a recipe, assigned last by statement `k` as a quoted text that
/// does not name it closed.
pub open spec fn open_license(s: Seq<StatementView>, k: int) -> bool {
    assigns_last(s, k, "LICENSE"@) && (values::quoted_text(s[k]->Assignment_0.value) matches Some(t)
        && !text::word_texts(t, CharClass::Ascii).contains("CLOSED"@))
}

/// The checksums of license files, assigned last by `a` as a quoted text, are
/// wrong at `at`: an entry for a file has no checksum, or there is text and no
/// entry for a file.
pub open spec fn wrong_checksums(a: AssignmentView, at: int) -> bool {
    let words = checks::assigned_words(a);
    values::quoted_text(a.value) matches Some(t) && ((exists|i: int|
        0 <= i < words.len() && (#[trigger] words[i]).0 == at && begins_with(
            words[i].1,
            "file://"@,
        ) && !has_checksum(words[i].1, "md5"@, "sha256"@)) || (at == a.name_at && (forall|i: int|
        0 <= i < words.len() ==> !begins_with((#[trigger] words[i]).1, "file://"@)) && exists|i: int|
        0 <= i < t.len() && !text::is_ws(#[trigger] t[i])))
}

/// An open recipe whose license files are not checked: it has no
/// `LIC_FILES_CHKSUM`, or the last one is wrong at `at`.
pub open spec fn unchecked_license(s: Seq<StatementView>, k: int, at: int) -> bool {
    &&& open_license(s, k)
    &&& if exists|j: int| #[trigger] assigns_last(s, j, "LIC_FILES_CHKSUM"@) {
        exists|j: int| #[trigger]
            assigns_last(s, j, "LIC_FILES_CHKSUM"@) && wrong_checksums(s[j]->Assignment_0, at)
    } else {
        at == s[k]->Assignment_0.name_at
    }
}

/// Whether `name` is the flag `PACKAGECONFIG[feature]`, or goes on with a colon or
/// an underscore behind it.
pub open spec fn defines_feature(name: Seq<char>, feature: Seq<char>) -> bool {
    let n = feature.len() as int;
    &&& name.len() >= 15 + n
    &&& name.take(14) == "PACKAGECONFIG["@
    &&& name.subrange(14, 14 + n) == feature
    &&& !feature.contains(']')
    &&& name[14 + n] == ']'
    &&& name.len() == 15 + n || name[15 + n] == ':' || name[15 + n] == '_'
}

/// A feature flag written out with another number of fields than three or four.
pub open spec fn wrong_fields(s: StatementView, feature: Seq<char>, at: int) -> bool {
    s matches StatementView::Assignment(a) && a.name_at == at && defines_feature(a.name, feature) && (
    values::quoted_text(a.value) matches Some(t) && !t.contains('$') && values::pieces(t, ',').len()
        != 3 && values::pieces(t, ',').len() != 4)
}

/// A feature that is enabled and that no flag defines.
pub open spec fn undefined_feature(
    s: Seq<StatementView>,
    k: int,
    i: int,
    at: int,
    feature: Seq<char>,
) -> bool {
    &&& 0 <= k < s.len()
    &&& has_word(s[k], "PACKAGECONFIG"@, i, at, feature)
    &&& forall|j: int|
        0 <= j < s.len() ==> !((#[trigger] s[j]) matches StatementView::Assignment(a)
            && defines_feature(a.name, feature))
}

/// The packages that a statement lists, each with its place.
pub open spec fn listed(s: StatementView) -> Seq<(int, Seq<char>)> {
    match s {
        StatementView::Assignment(a) => if a.name == "PACKAGES"@ {
            checks::assigned_words(a)
        } else {
            Seq::empty()
        },
        _ => Seq::empty(),
    }
}

/// Word `i` of statement `k` lists at `at` a package that an earlier word, `j` of
/// statement `h`, lists.
pub open spec fn listed_again(
    s: Seq<StatementView>,
    h: int,
    j: int,
    k: int,
    i: int,
    at: int,
) -> bool {
    &&& 0 <= h <= k < s.len()
    &&& 0 <= i < listed(s[k]).len()
    &&& 0 <= j < listed(s[h]).len()
    &&& h < k || j < i
    &&& listed(s[h])[j].1 == listed(s[k])[i].1
    &&& listed(s[k])[i].0 == at
}

/// Whether one of the statements lists the package.
pub open spec fn lists_package(s: Seq<StatementView>, package: Seq<char>) -> bool {
    exists|k: int, i: int| #[trigger] lists_at(s, k, i, package)
}

pub open spec fn lists_at(s: Seq<StatementView>, k: int, i: int, package: Seq<char>) -> bool {
    0 <= k < s.len() && 0 <= i < listed(s[k]).len() && listed(s[k])[i].1 == package
}

/// A variable about a package that is not listed, in a recipe that lists some.
pub open spec fn unlisted_package(
    s: Seq<StatementView>,
    k: int,
    at: int,
    package: Seq<char>,
) -> bool {
    &&& 0 <= k < s.len()
    &&& s[k] matches StatementView::Assignment(a) && a.name_at == at && values::scoped_package(
        a.name,
    ) == Some(package)
    &&& !package.contains('$')
    &&& !lists_package(s, package)
    &&& exists|other: Seq<char>| #[trigger] lists_package(s, other)
}

/// The key of a parameter `key=value`.
pub open spec fn has_key(p: Seq<char>, key: Seq<char>) -> bool {
    key.len() < p.len() && p.take(key.len() as int) == key && p[key.len() as int] == '='
        && !key.contains('=')
}

/// Whether part `j` of the address `uri`, behind a semicolon, is a parameter
/// `key=value` that is wrong: its key or its value is empty, an earlier
/// parameter has its key, it names a branch of what is no Git address, or a
/// protocol of what is none or one that is not known.
pub open spec fn wrong_parameter(uri: Seq<char>, j: int, key: Seq<char>) -> bool {
    let parts = values::pieces(uri, ';');
    let value = parts[j].skip(key.len() as int + 1);
    let git = begins_with(uri, "git://"@);
    &&& 1 <= j < parts.len()
    &&& has_key(parts[j], key)
    &&& {
        ||| key.len() == 0
        ||| value.len() == 0
        ||| exists|h: int| 1 <= h < j && has_key(#[trigger] parts[h], key)
        ||| key == "branch"@ && !git
        ||| key == "protocol"@ && !git
        ||| key == "protocol"@ && value != "git"@ && value != "http"@ && value != "https"@ && value
            != "ssh"@ && value != "file"@
    }
}

/// Whether `p` stands in `t` at `o` and not before.
pub open spec fn first_at(t: Seq<char>, p: Seq<char>, o: int) -> bool {
    &&& 0 <= o <= t.len() - p.len()
    &&& t.subrange(o, o + p.len()) == p
    &&& forall|k: int| 0 <= k < o ==> #[trigger] t.subrange(k, k + p.len()) != p
}

/// A wrong parameter of an address of `SRC_URI`, told where its text stands first.
pub open spec fn parameter_at(s: StatementView, i: int, w: (int, Seq<char>), j: int, at: int) -> bool {
    &&& has_word(s, "SRC_URI"@, i, w.0, w.1)
    &&& exists|key: Seq<char>| #[trigger] wrong_parameter(w.1, j, key)
    &&& first_at(w.1, values::pieces(w.1, ';')[j], at - w.0)
}

// ---------------------------------------------------------------------------
// Lists of findings
// ---------------------------------------------------------------------------
/// What `f` gives for `items[k..]`, one after the other.
pub open spec fn gathered<A>(items: Seq<A>, k: int, f: spec_fn(A) -> Seq<FindingView>) -> Seq<FindingView>
    decreases items.len() - k,
{
    if k < 0 || k >= items.len() {
        Seq::empty()
    } else {
        f(items[k]) + gathered(items, k + 1, f)
    }
}

pub open spec fn speaks<A>(
    items: Seq<A>,
    k: int,
    f: spec_fn(A) -> Seq<FindingView>,
    j: int,
    rule: usize,
    at: int,
) -> bool {
    k <= j < items.len() && conditions::found_at(f(items[j]), rule, at)
}

pub proof fn lemma_gathered<A>(
    items: Seq<A>,
    k: int,
    f: spec_fn(A) -> Seq<FindingView>,
    rule: usize,
    at: int,
)
    requires
        0 <= k <= items.len(),
    ensures
        conditions::found_at(gathered(items, k, f), rule, at) <==> exists|j: int| #[trigger]
            speaks(items, k, f, j, rule, at),
    decreases items.len() - k,
{
    if k < items.len() {
        lemma_gathered(items, k + 1, f, rule, at);
        conditions::lemma_found_add(f(items[k]), gathered(items, k + 1, f), rule, at);
        if exists|j: int| #[trigger] speaks(items, k, f, j, rule, at) {
            let j = choose|j: int| #[trigger] speaks(items, k, f, j, rule, at);
            if j != k {
                assert(speaks(items, k + 1, f, j, rule, at));
            }
        }
        if exists|j: int| #[trigger] speaks(items, k + 1, f, j, rule, at) {
            let j = choose|j: int| #[trigger] speaks(items, k + 1, f, j, rule, at);
            assert(speaks(items, k, f, j, rule, at));
        }
        if conditions::found_at(f(items[k]), rule, at) {
            assert(speaks(items, k, f, k, rule, at));
        }
    }
}

pub proof fn lemma_none<A>(items: Seq<A>)
    ensures
        Seq::<A>::empty() + items == items,
        items + Seq::<A>::empty() == items,
{
    assert(Seq::<A>::empty() + items =~= items);
    assert(items + Seq::<A>::empty() =~= items);
}

proof fn lemma_checksum(uri: Seq<char>, key: Seq<char>, n: int)
    requires
        values::checksum_length(key) == n,
        n >= 0,
    ensures
        values::valid_checksum(uri, key) <==> exists|k: int|
            1 <= k < values::pieces(uri, ';').len() && checksum_is(
                #[trigger] values::pieces(uri, ';')[k],
                key,
                n,
            ),
{
    let all = values::pieces(uri, ';');
    assert forall|k: int| 1 <= k < all.len() implies (values::checksum_parameter(
        #[trigger] all[k],
        key,
    ) <==> checksum_is(all[k], key, n)) by {
        let p = all[k];
        let m = key.len() as int;
        let rest = p.skip(m + 1);
        if m < p.len() {
            assert(p.take(m + 1).take(m) =~= p.take(m));
            assert((key + seq!['=']).take(m) =~= key);
            if p.take(m) == key && p[m] == '=' {
                assert(p.take(m + 1) =~= key + seq!['=']);
            }
            if p.take(m + 1) == key + seq!['='] {
                assert(p.take(m + 1)[m] == p[m]);
            }
            if values::checksum_parameter(p, key) {
                assert forall|j: int| m < j < p.len() implies ('0' <= #[trigger] p[j] <= '9') || (
                'a' <= p[j] <= 'f') || ('A' <= p[j] <= 'F') by {
                    assert(rest[j - m - 1] == p[j]);
                    assert(values::is_hex(rest[j - m - 1]));
                }
            }
            if checksum_is(p, key, n) {
                assert forall|j: int| 0 <= j < rest.len() implies values::is_hex(#[trigger] rest[j]) by {
                    assert(rest[j] == p[m + 1 + j]);
                }
            }
        }
    }
}

proof fn lemma_has_checksum(uri: Seq<char>, short: Seq<char>, long: Seq<char>)
    requires
        values::checksum_length(short) == 32,
        values::checksum_length(long) == 64,
    ensures
        has_checksum(uri, short, long) <==> values::valid_checksum(uri, short)
            || values::valid_checksum(uri, long),
{
    lemma_checksum(uri, short, 32);
    lemma_checksum(uri, long, 64);
    let all = values::pieces(uri, ';');
    if has_checksum(uri, short, long) {
        let k = choose|k: int|
            1 <= k < all.len() && (checksum_is(#[trigger] all[k], short, 32) || checksum_is(
                all[k],
                long,
                64,
            ));
        assert(checksum_is(all[k], short, 32) || checksum_is(all[k], long, 64));
    }
}

proof fn lemma_checksum_keys()
    ensures
        values::checksum_length("md5"@) == 32,
        values::checksum_length("md5sum"@) == 32,
        values::checksum_length("sha256"@) == 64,
        values::checksum_length("sha256sum"@) == 64,
{
    reveal_strlit("md5");
    reveal_strlit("md5sum");
    reveal_strlit("sha256");
    reveal_strlit("sha256sum");
    assert("md5"@.len() == 3 && "md5sum"@.len() == 6 && "sha256"@.len() == 6 && "sha256sum"@.len()
        == 9);
    assert("md5sum"@[0] == 'm' && "sha256"@[0] == 's');
}

// ---------------------------------------------------------------------------
// Sources
// ---------------------------------------------------------------------------
spec fn archive_of() -> spec_fn((int, Seq<char>)) -> Seq<FindingView> {
    |w: (int, Seq<char>)| recipes::archives_from(seq![w], 0)
}

proof fn lemma_archives(words: Seq<(int, Seq<char>)>, k: int)
    requires
        0 <= k <= words.len(),
    ensures
        recipes::archives_from(words, k) == gathered(words, k, archive_of()),
    decreases words.len() - k,
{
    if k < words.len() {
        lemma_archives(words, k + 1);
        let one = seq![words[k]];
        assert(one[0] == words[k]);
        assert(recipes::archives_from(one, 1) =~= Seq::empty());
        lemma_none(recipes::archives_from(words, k + 1));
        lemma_none(recipes::archives_from(one, 0));
    }
}

spec fn sources_of() -> spec_fn(StatementView) -> Seq<FindingView> {
    |s: StatementView| recipes::sources_from(seq![s], 0)
}

proof fn lemma_sources_gathered(s: Seq<StatementView>, k: int)
    requires
        0 <= k <= s.len(),
    ensures
        recipes::sources_from(s, k) == gathered(s, k, sources_of()),
    decreases s.len() - k,
{
    if k < s.len() {
        lemma_sources_gathered(s, k + 1);
        let one = seq![s[k]];
        assert(one[0] == s[k]);
        assert(recipes::sources_from(one, 1) =~= Seq::empty());
        lemma_none(recipes::sources_from(s, k + 1));
        if let StatementView::Assignment(a) = s[k] {
            lemma_none(recipes::archives_from(checks::assigned_words(a), 0));
        }
    }
}

spec fn archive_at(s: Seq<StatementView>, k: int, at: int) -> bool {
    0 <= k < s.len() && exists|i: int, uri: Seq<char>| #[trigger]
        unchecked_archive(s[k], i, at, uri)
}

proof fn lemma_sources(s: Seq<StatementView>, rule: usize, at: int)
    ensures
        conditions::found_at(recipes::sources_from(s, 0), rule, at) <==> rule == RULE_SOURCE_CHECKSUM && exists|
            k: int,
        | #[trigger]
            archive_at(s, k, at),
{
    lemma_checksum_keys();
    lemma_sources_gathered(s, 0);
    lemma_gathered(s, 0, sources_of(), rule, at);
    let f = sources_of();
    assert forall|k: int| #[trigger] speaks(s, 0, f, k, rule, at) <==> rule == RULE_SOURCE_CHECKSUM
        && archive_at(s, k, at) by {
        if 0 <= k < s.len() {
            let one = seq![s[k]];
            assert(one[0] == s[k]);
            assert(recipes::sources_from(one, 1) =~= Seq::empty());
            if let StatementView::Assignment(a) = s[k] {
                conditions::lemma_variable(a.name, "SRC_URI"@);
                let words = checks::assigned_words(a);
                lemma_none(recipes::archives_from(words, 0));
                if conditions::variable_or_variant(a.name, "SRC_URI"@) {
                    lemma_archives(words, 0);
                    lemma_gathered(words, 0, archive_of(), rule, at);
                    let g = archive_of();
                    assert forall|i: int| #[trigger] speaks(words, 0, g, i, rule, at) <==> rule
                        == RULE_SOURCE_CHECKSUM && 0 <= i < words.len() && unchecked_archive(
                        s[k],
                        i,
                        at,
                        words[i].1,
                    ) by {
                        if 0 <= i < words.len() {
                            let w = words[i];
                            assert(seq![w][0] == w);
                            assert(recipes::archives_from(seq![w], 1) =~= Seq::empty());
                            lemma_has_checksum(w.1, "md5sum"@, "sha256sum"@);
                            let found = recipes::archives_from(seq![w], 0);
                            if recipes::unchecked_source(w.1) {
                                lemma_none(seq![found[0]]);
                                conditions::lemma_found_one(found[0], rule, at);
                                assert(found =~= seq![found[0]]);
                            } else {
                                assert(found =~= Seq::empty());
                            }
                        }
                    }
                    if exists|i: int| #[trigger] speaks(words, 0, g, i, rule, at) {
                        let i = choose|i: int| #[trigger] speaks(words, 0, g, i, rule, at);
                        assert(unchecked_archive(s[k], i, at, words[i].1));
                    }
                    if rule == RULE_SOURCE_CHECKSUM && archive_at(s, k, at) {
                        let (i, uri) = choose|i: int, uri: Seq<char>| #[trigger]
                            unchecked_archive(s[k], i, at, uri);
                        assert(speaks(words, 0, g, i, rule, at));
                    }
                }
            }
        }
    }
    if exists|k: int| #[trigger] speaks(s, 0, f, k, rule, at) {
        let k = choose|k: int| #[trigger] speaks(s, 0, f, k, rule, at);
        assert(archive_at(s, k, at));
    }
    if rule == RULE_SOURCE_CHECKSUM && exists|k: int| #[trigger] archive_at(s, k, at) {
        let k = choose|k: int| #[trigger] archive_at(s, k, at);
        assert(speaks(s, 0, f, k, rule, at));
    }
}

// ---------------------------------------------------------------------------
// Licenses
// ---------------------------------------------------------------------------
proof fn lemma_last_assignment(s: Seq<StatementView>, name: Seq<char>, n: int)
    requires
        0 <= n <= s.len(),
        forall|j: int| n <= j < s.len() ==> !assigns_to(#[trigger] s[j], name),
    ensures
        match recipes::last_assignment(s, name, n) {
            Some(a) => exists|k: int| #[trigger] assigns_last(s, k, name) && s[k]->Assignment_0 == a,
            None => forall|k: int| !(#[trigger] assigns_last(s, k, name)),
        },
    decreases n,
{
    if n > 0 {
        if assigns_to(s[n - 1], name) {
            assert(assigns_last(s, n - 1, name));
        } else {
            assert forall|j: int| n - 1 <= j < s.len() implies !assigns_to(#[trigger] s[j], name) by {}
            lemma_last_assignment(s, name, n - 1);
        }
    }
}

/// There is one last assignment.
proof fn lemma_one_last(s: Seq<StatementView>, name: Seq<char>, j: int, k: int)
    requires
        assigns_last(s, j, name),
        assigns_last(s, k, name),
    ensures
        j == k,
{
    if j < k {
        assert(!assigns_to(s[k], name));
    }
    if k < j {
        assert(!assigns_to(s[j], name));
    }
}

spec fn license_file_of() -> spec_fn((int, Seq<char>)) -> Seq<FindingView> {
    |w: (int, Seq<char>)| recipes::license_files_from(seq![w], 0)
}

proof fn lemma_license_files(words: Seq<(int, Seq<char>)>, k: int)
    requires
        0 <= k <= words.len(),
    ensures
        recipes::license_files_from(words, k) == gathered(words, k, license_file_of()),
    decreases words.len() - k,
{
    if k < words.len() {
        lemma_license_files(words, k + 1);
        let one = seq![words[k]];
        assert(one[0] == words[k]);
        assert(recipes::license_files_from(one, 1) =~= Seq::empty());
        lemma_none(recipes::license_files_from(words, k + 1));
        lemma_none(recipes::license_files_from(one, 0));
    }
}

proof fn lemma_checksums(a: AssignmentView, rule: usize, at: int)
    ensures
        conditions::found_at(recipes::checksum_findings(a), rule, at) <==> rule == RULE_LICENSE_CHECKSUM
            && wrong_checksums(a, at),
{
    lemma_checksum_keys();
    if let Some(t) = values::quoted_text(a.value) {
        let words = checks::assigned_words(a);
        let g = license_file_of();
        lemma_license_files(words, 0);
        lemma_gathered(words, 0, g, rule, at);
        let files = recipes::license_files_from(words, 0);
        let wrong = |i: int|
            0 <= i < words.len() && words[i].0 == at && begins_with(words[i].1, "file://"@)
                && !has_checksum(words[i].1, "md5"@, "sha256"@);
        assert forall|i: int| #[trigger] speaks(words, 0, g, i, rule, at) <==> rule
            == RULE_LICENSE_CHECKSUM && wrong(i) by {
            if 0 <= i < words.len() {
                let w = words[i];
                assert(seq![w][0] == w);
                assert(recipes::license_files_from(seq![w], 1) =~= Seq::empty());
                lemma_has_checksum(w.1, "md5"@, "sha256"@);
                let found = recipes::license_files_from(seq![w], 0);
                if recipes::unchecked_license(w.1) {
                    lemma_none(seq![found[0]]);
                    conditions::lemma_found_one(found[0], rule, at);
                    assert(found =~= seq![found[0]]);
                } else {
                    assert(found =~= Seq::empty());
                }
            }
        }
        let entry = exists|i: int|
            0 <= i < words.len() && (#[trigger] words[i]).0 == at && begins_with(
                words[i].1,
                "file://"@,
            ) && !has_checksum(words[i].1, "md5"@, "sha256"@);
        assert(conditions::found_at(files, rule, at) <==> rule == RULE_LICENSE_CHECKSUM && entry) by {
            if exists|i: int| #[trigger] speaks(words, 0, g, i, rule, at) {
                let i = choose|i: int| #[trigger] speaks(words, 0, g, i, rule, at);
                assert(wrong(i));
                assert(words[i].0 == at);
            }
            if rule == RULE_LICENSE_CHECKSUM && entry {
                let i = choose|i: int|
                    0 <= i < words.len() && (#[trigger] words[i]).0 == at && begins_with(
                        words[i].1,
                        "file://"@,
                    ) && !has_checksum(words[i].1, "md5"@, "sha256"@);
                assert(wrong(i));
                assert(speaks(words, 0, g, i, rule, at));
            }
        }
        conditions::lemma_blank(t);
        let text = exists|i: int| 0 <= i < t.len() && !text::is_ws(#[trigger] t[i]);
        let no_file = forall|i: int|
            0 <= i < words.len() ==> !begins_with((#[trigger] words[i]).1, "file://"@);
        assert(no_file <==> !recipes::names_file(words)) by {
            if !no_file {
                let i = choose|i: int|
                    0 <= i < words.len() && begins_with((#[trigger] words[i]).1, "file://"@);
                assert(recipes::file_uri(words[i].1));
            }
            if recipes::names_file(words) {
                let i = choose|i: int|
                    0 <= i < words.len() && recipes::file_uri((#[trigger] words[i]).1);
                assert(begins_with(words[i].1, "file://"@));
            }
        }
        let all = recipes::checksum_findings(a);
        if no_file && text {
            let f = all[files.len() as int];
            assert(all =~= files + seq![f]);
            conditions::lemma_found_add(files, seq![f], rule, at);
            conditions::lemma_found_one(f, rule, at);
        } else {
            lemma_none(files);
            assert(all =~= files);
        }
    }
}

proof fn lemma_licenses(s: Seq<StatementView>, rule: usize, at: int)
    ensures
        conditions::found_at(recipes::license_findings(s), rule, at) <==> rule == RULE_LICENSE_CHECKSUM && exists|
            k: int,
        | #[trigger]
            unchecked_license(s, k, at),
{
    let n = s.len() as int;
    lemma_last_assignment(s, "LICENSE"@, n);
    lemma_last_assignment(s, "LIC_FILES_CHKSUM"@, n);
    let all = recipes::license_findings(s);
    if let Some(license) = recipes::last_assignment(s, "LICENSE"@, n) {
        let k = choose|k: int| #[trigger]
            assigns_last(s, k, "LICENSE"@) && s[k]->Assignment_0 == license;
        assert forall|h: int| #[trigger] unchecked_license(s, h, at) implies h == k by {
            lemma_one_last(s, "LICENSE"@, h, k);
        }
        if let Some(checksum) = recipes::last_assignment(s, "LIC_FILES_CHKSUM"@, n) {
            let j = choose|j: int| #[trigger]
                assigns_last(s, j, "LIC_FILES_CHKSUM"@) && s[j]->Assignment_0 == checksum;
            lemma_checksums(checksum, rule, at);
            assert forall|h: int| #[trigger] assigns_last(s, h, "LIC_FILES_CHKSUM"@) implies h == j by {
                lemma_one_last(s, "LIC_FILES_CHKSUM"@, h, j);
            }
            assert(open_license(s, k) && wrong_checksums(checksum, at) <==> unchecked_license(
                s,
                k,
                at,
            ));
        } else {
            if open_license(s, k) {
                conditions::lemma_found_one(all[0], rule, at);
                assert(all =~= seq![all[0]]);
            }
            assert(open_license(s, k) && at == license.name_at <==> unchecked_license(s, k, at));
        }
    } else {
        assert forall|h: int| !(#[trigger] unchecked_license(s, h, at)) by {
            if unchecked_license(s, h, at) {
                assert(assigns_last(s, h, "LICENSE"@));
            }
        }
    }
}

// ---------------------------------------------------------------------------
// Features
// ---------------------------------------------------------------------------
proof fn lemma_feature(name: Seq<char>, feature: Seq<char>)
    ensures
        defines_feature(name, feature) <==> (values::config_feature(name) matches Some((f, e))
            && name.subrange(f, e) == feature),
{
    reveal_strlit("PACKAGECONFIG[");
    assert("PACKAGECONFIG["@.len() == 14);
    if name.len() >= 14 {
        text::lemma_find(name, ']', 14);
        let e = text::find_from(name, ']', 14);
        let n = feature.len() as int;
        if defines_feature(name, feature) {
            assert forall|k: int| 14 <= k < 14 + n implies #[trigger] name[k] != ']' by {
                assert(name[k] == name.subrange(14, 14 + n)[k - 14]);
                assert(feature[k - 14] == name[k]);
            }
            text::lemma_find_unique(name, ']', 14, 14 + n);
        }
        if values::config_feature(name) == Some((14int, e)) && name.subrange(14, e) == feature {
            assert(feature.len() == e - 14);
            if feature.contains(']') {
                let k = choose|k: int| 0 <= k < feature.len() && feature[k] == ']';
                assert(feature[k] == name[14 + k]);
            }
        }
    }
}

spec fn fields_of() -> spec_fn(StatementView) -> Seq<FindingView> {
    |s: StatementView| recipes::fields_from(seq![s], 0)
}

proof fn lemma_fields_gathered(s: Seq<StatementView>, k: int)
    requires
        0 <= k <= s.len(),
    ensures
        recipes::fields_from(s, k) == gathered(s, k, fields_of()),
    decreases s.len() - k,
{
    if k < s.len() {
        lemma_fields_gathered(s, k + 1);
        let one = seq![s[k]];
        assert(one[0] == s[k]);
        assert(recipes::fields_from(one, 1) =~= Seq::empty());
        lemma_none(recipes::fields_from(s, k + 1));
        if let StatementView::Assignment(a) = s[k] {
            lemma_none(recipes::fields_findings(a));
        }
    }
}

spec fn fields_at(s: Seq<StatementView>, k: int, at: int) -> bool {
    0 <= k < s.len() && exists|feature: Seq<char>| #[trigger] wrong_fields(s[k], feature, at)
}

proof fn lemma_fields(s: Seq<StatementView>, rule: usize, at: int)
    ensures
        conditions::found_at(recipes::fields_from(s, 0), rule, at) <==> rule == RULE_PACKAGECONFIG_FORMAT && exists|
            k: int,
        | #[trigger]
            fields_at(s, k, at),
{
    lemma_fields_gathered(s, 0);
    let f = fields_of();
    lemma_gathered(s, 0, f, rule, at);
    assert forall|k: int| #[trigger] speaks(s, 0, f, k, rule, at) <==> rule
        == RULE_PACKAGECONFIG_FORMAT && fields_at(s, k, at) by {
        if 0 <= k < s.len() {
            let one = seq![s[k]];
            assert(one[0] == s[k]);
            assert(recipes::fields_from(one, 1) =~= Seq::empty());
            if let StatementView::Assignment(a) = s[k] {
                let found = recipes::fields_findings(a);
                lemma_none(found);
                if let Some((b, e)) = values::config_feature(a.name) {
                    lemma_feature(a.name, a.name.subrange(b, e));
                }
                if found.len() > 0 {
                    conditions::lemma_found_one(found[0], rule, at);
                    assert(found =~= seq![found[0]]);
                    if a.name_at == at {
                        let (b, e) = values::config_feature(a.name)->0;
                        assert(wrong_fields(s[k], a.name.subrange(b, e), at));
                    }
                }
                if fields_at(s, k, at) {
                    let feature = choose|feature: Seq<char>| #[trigger]
                        wrong_fields(s[k], feature, at);
                    lemma_feature(a.name, feature);
                    assert(found.len() > 0);
                }
            }
        }
    }
    if exists|k: int| #[trigger] speaks(s, 0, f, k, rule, at) {
        let k = choose|k: int| #[trigger] speaks(s, 0, f, k, rule, at);
        assert(fields_at(s, k, at));
    }
    if rule == RULE_PACKAGECONFIG_FORMAT && exists|k: int| #[trigger] fields_at(s, k, at) {
        let k = choose|k: int| #[trigger] fields_at(s, k, at);
        assert(speaks(s, 0, f, k, rule, at));
    }
}

spec fn enables_at(s: Seq<StatementView>, k: int, j: int, i: int, at: int, feature: Seq<char>) -> bool {
    k <= j < s.len() && has_word(s[j], "PACKAGECONFIG"@, i, at, feature)
}

proof fn lemma_enabled(s: Seq<StatementView>, k: int, at: int, feature: Seq<char>)
    requires
        0 <= k <= s.len(),
    ensures
        recipes::enabled_from(s, k).contains((at, feature)) <==> exists|j: int, i: int| #[trigger]
            enables_at(s, k, j, i, at, feature),
    decreases s.len() - k,
{
    let all = recipes::enabled_from(s, k);
    if k < s.len() {
        lemma_enabled(s, k + 1, at, feature);
        let rest = recipes::enabled_from(s, k + 1);
        let own = match s[k] {
            StatementView::Assignment(a) => if values::names_variable(a.name, "PACKAGECONFIG"@) {
                checks::assigned_words(a)
            } else {
                Seq::empty()
            },
            _ => Seq::empty(),
        };
        assert(all =~= own + rest);
        lemma_contains_add(own, rest, (at, feature));
        if let StatementView::Assignment(a) = s[k] {
            conditions::lemma_variable(a.name, "PACKAGECONFIG"@);
        }
        if own.contains((at, feature)) {
            let i = choose|i: int| 0 <= i < own.len() && own[i] == (at, feature);
            assert(enables_at(s, k, k, i, at, feature));
        }
        if exists|j: int, i: int| #[trigger] enables_at(s, k + 1, j, i, at, feature) {
            let (j, i) = choose|j: int, i: int| #[trigger] enables_at(s, k + 1, j, i, at, feature);
            assert(enables_at(s, k, j, i, at, feature));
        }
        if exists|j: int, i: int| #[trigger] enables_at(s, k, j, i, at, feature) {
            let (j, i) = choose|j: int, i: int| #[trigger] enables_at(s, k, j, i, at, feature);
            if j == k {
                assert(own[i] == (at, feature));
            } else {
                assert(enables_at(s, k + 1, j, i, at, feature));
            }
        }
    }
}

proof fn lemma_contains_add<A>(a: Seq<A>, b: Seq<A>, x: A)
    ensures
        (a + b).contains(x) <==> a.contains(x) || b.contains(x),
{
    let c = a + b;
    if a.contains(x) {
        let i = choose|i: int| 0 <= i < a.len() && a[i] == x;
        assert(c[i] == x);
    }
    if b.contains(x) {
        let i = choose|i: int| 0 <= i < b.len() && b[i] == x;
        assert(c[a.len() + i] == x);
    }
    if c.contains(x) {
        let i = choose|i: int| 0 <= i < c.len() && c[i] == x;
        if i < a.len() {
            assert(a[i] == x);
        } else {
            assert(b[i - a.len()] == x);
        }
    }
}

spec fn defines_at(s: Seq<StatementView>, k: int, j: int, feature: Seq<char>) -> bool {
    k <= j < s.len() && (s[j] matches StatementView::Assignment(a) && defines_feature(
        a.name,
        feature,
    ))
}

proof fn lemma_defined(s: Seq<StatementView>, k: int, feature: Seq<char>)
    requires
        0 <= k <= s.len(),
    ensures
        recipes::defined_from(s, k).contains(feature) <==> exists|j: int| #[trigger]
            defines_at(s, k, j, feature),
    decreases s.len() - k,
{
    let all = recipes::defined_from(s, k);
    if k < s.len() {
        lemma_defined(s, k + 1, feature);
        let rest = recipes::defined_from(s, k + 1);
        let own = match s[k] {
            StatementView::Assignment(a) => match values::config_feature(a.name) {
                Some((f, e)) => seq![a.name.subrange(f, e)],
                None => Seq::empty(),
            },
            _ => Seq::empty(),
        };
        assert(all =~= own + rest);
        lemma_contains_add(own, rest, feature);
        if let StatementView::Assignment(a) = s[k] {
            lemma_feature(a.name, feature);
            if values::config_feature(a.name) is Some {
                assert(own[0] == own.last());
            }
        }
        assert(own.contains(feature) <==> defines_at(s, k, k, feature));
        if exists|j: int| #[trigger] defines_at(s, k + 1, j, feature) {
            let j = choose|j: int| #[trigger] defines_at(s, k + 1, j, feature);
            assert(defines_at(s, k, j, feature));
        }
        if exists|j: int| #[trigger] defines_at(s, k, j, feature) {
            let j = choose|j: int| #[trigger] defines_at(s, k, j, feature);
            if j != k {
                assert(defines_at(s, k + 1, j, feature));
            }
        }
    }
}

proof fn lemma_undefined(
    words: Seq<(int, Seq<char>)>,
    k: int,
    defined: Seq<Seq<char>>,
    rule: usize,
    at: int,
)
    requires
        0 <= k <= words.len(),
    ensures
        conditions::found_at(recipes::undefined_from(words, k, defined), rule, at) <==> rule
            == RULE_PACKAGECONFIG && exists|feature: Seq<char>| #[trigger]
            words.skip(k).contains((at, feature)) && !defined.contains(feature),
    decreases words.len() - k,
{
    let all = recipes::undefined_from(words, k, defined);
    let here = words.skip(k);
    if k < words.len() {
        lemma_undefined(words, k + 1, defined, rule, at);
        let rest = recipes::undefined_from(words, k + 1, defined);
        let next = words.skip(k + 1);
        let w = words[k];
        assert(here =~= seq![w] + next);
        assert forall|feature: Seq<char>| #[trigger] here.contains((at, feature)) <==> w == (
            at,
            feature,
        ) || next.contains((at, feature)) by {
            lemma_contains_add(seq![w], next, (at, feature));
            assert(seq![w][0] == w);
        }
        if !defined.contains(w.1) {
            assert(all =~= seq![all[0]] + rest);
            conditions::lemma_found_add(seq![all[0]], rest, rule, at);
            conditions::lemma_found_one(all[0], rule, at);
        }
        if exists|feature: Seq<char>| #[trigger]
            next.contains((at, feature)) && !defined.contains(feature) {
            let feature = choose|feature: Seq<char>| #[trigger]
                next.contains((at, feature)) && !defined.contains(feature);
            assert(here.contains((at, feature)));
        }
        if exists|feature: Seq<char>| #[trigger]
            here.contains((at, feature)) && !defined.contains(feature) {
            let feature = choose|feature: Seq<char>| #[trigger]
                here.contains((at, feature)) && !defined.contains(feature);
            if w != (at, feature) {
                assert(next.contains((at, feature)));
            }
        }
        if w.0 == at {
            assert(here.contains((at, w.1)));
        }
    } else {
        assert(here.len() == 0);
    }
}

proof fn lemma_features(s: Seq<StatementView>, rule: usize, at: int)
    ensures
        conditions::found_at(recipes::packageconfig_findings(s), rule, at) <==> {
            ||| rule == RULE_PACKAGECONFIG_FORMAT && exists|k: int| #[trigger] fields_at(s, k, at)
            ||| rule == RULE_PACKAGECONFIG && exists|k: int, i: int, feature: Seq<char>| #[trigger]
                undefined_feature(s, k, i, at, feature)
        },
{
    lemma_fields(s, rule, at);
    let words = recipes::enabled_from(s, 0);
    let defined = recipes::defined_from(s, 0);
    lemma_undefined(words, 0, defined, rule, at);
    assert(words.skip(0) =~= words);
    conditions::lemma_found_add(
        recipes::fields_from(s, 0),
        recipes::undefined_from(words, 0, defined),
        rule,
        at,
    );
    if exists|feature: Seq<char>| #[trigger]
        words.skip(0).contains((at, feature)) && !defined.contains(feature) {
        let feature = choose|feature: Seq<char>| #[trigger]
            words.skip(0).contains((at, feature)) && !defined.contains(feature);
        lemma_enabled(s, 0, at, feature);
        lemma_defined(s, 0, feature);
        let (k, i) = choose|k: int, i: int| #[trigger] enables_at(s, 0, k, i, at, feature);
        assert forall|j: int| 0 <= j < s.len() implies !((#[trigger] s[j]) matches StatementView::Assignment(
        a) && defines_feature(a.name, feature)) by {
            assert(!defines_at(s, 0, j, feature));
        }
        assert(undefined_feature(s, k, i, at, feature));
    }
    if exists|k: int, i: int, feature: Seq<char>| #[trigger]
        undefined_feature(s, k, i, at, feature) {
        let (k, i, feature) = choose|k: int, i: int, feature: Seq<char>| #[trigger]
            undefined_feature(s, k, i, at, feature);
        lemma_enabled(s, 0, at, feature);
        lemma_defined(s, 0, feature);
        assert(enables_at(s, 0, k, i, at, feature));
        assert forall|j: int| !(#[trigger] defines_at(s, 0, j, feature)) by {
            if 0 <= j < s.len() {
                assert(!(s[j] matches StatementView::Assignment(a) && defines_feature(
                    a.name,
                    feature,
                )));
            }
        }
        assert(words.skip(0).contains((at, feature)));
    }
}

// ---------------------------------------------------------------------------
// Packages
// ---------------------------------------------------------------------------
spec fn word_speaks(
    words: Seq<(int, Seq<char>)>,
    k: int,
    seen: Seq<Seq<char>>,
    i: int,
    at: int,
) -> bool {
    k <= i < words.len() && words[i].0 == at && (seen.contains(words[i].1)
        || conditions::word_between(words, k, i, words[i].1))
}

proof fn lemma_listed(
    words: Seq<(int, Seq<char>)>,
    k: int,
    seen: Seq<Seq<char>>,
    rule: usize,
    at: int,
)
    requires
        0 <= k <= words.len(),
    ensures
        conditions::found_at(recipes::listed_from(words, k, seen), rule, at) <==> rule == RULE_PACKAGE_LIST
            && exists|i: int| #[trigger] word_speaks(words, k, seen, i, at),
    decreases words.len() - k,
{
    let all = recipes::listed_from(words, k, seen);
    if k < words.len() {
        let own = words[k].1;
        let again = seen.contains(own);
        let later = if again {
            seen
        } else {
            seen.push(own)
        };
        let rest = recipes::listed_from(words, k + 1, later);
        lemma_listed(words, k + 1, later, rule, at);
        if again {
            assert(all =~= seq![all[0]] + rest);
            conditions::lemma_found_add(seq![all[0]], rest, rule, at);
            conditions::lemma_found_one(all[0], rule, at);
        }
        assert(!conditions::word_between(words, k, k, own));
        assert(word_speaks(words, k, seen, k, at) <==> again && words[k].0 == at);
        assert forall|i: int| i != k implies (#[trigger] word_speaks(words, k, seen, i, at)
            <==> word_speaks(words, k + 1, later, i, at)) by {
            if k < i < words.len() {
                let w = words[i].1;
                conditions::lemma_pushed_contains(seen, own, w);
                assert(conditions::word_between(words, k, i, w) <==> own == w
                    || conditions::word_between(words, k + 1, i, w)) by {
                    if conditions::word_between(words, k, i, w) {
                        let j = choose|j: int| k <= j < i && (#[trigger] words[j]).1 == w;
                        if j > k {
                            assert(k + 1 <= j < i && words[j].1 == w);
                        }
                    }
                }
            }
        }
        if exists|i: int| #[trigger] word_speaks(words, k, seen, i, at) {
            let i = choose|i: int| #[trigger] word_speaks(words, k, seen, i, at);
            if i != k {
                assert(word_speaks(words, k + 1, later, i, at));
            }
        }
        if exists|i: int| #[trigger] word_speaks(words, k + 1, later, i, at) {
            let i = choose|i: int| #[trigger] word_speaks(words, k + 1, later, i, at);
            assert(i != k);
            assert(word_speaks(words, k, seen, i, at));
        }
    }
}

spec fn statement_lists(s: StatementView, name: Seq<char>) -> bool {
    conditions::word_between(listed(s), 0, listed(s).len() as int, name)
}

spec fn listed_between(s: Seq<StatementView>, k: int, j: int, name: Seq<char>) -> bool {
    exists|h: int| k <= h < j && statement_lists(#[trigger] s[h], name)
}

spec fn list_speaks(
    s: Seq<StatementView>,
    k: int,
    seen: Seq<Seq<char>>,
    j: int,
    i: int,
    at: int,
) -> bool {
    k <= j < s.len() && 0 <= i < listed(s[j]).len() && listed(s[j])[i].0 == at && (seen.contains(
        listed(s[j])[i].1,
    ) || conditions::word_between(listed(s[j]), 0, i, listed(s[j])[i].1) || listed_between(
        s,
        k,
        j,
        listed(s[j])[i].1,
    ))
}

proof fn lemma_lists(s: Seq<StatementView>, k: int, seen: Seq<Seq<char>>, rule: usize, at: int)
    requires
        0 <= k <= s.len(),
    ensures
        conditions::found_at(recipes::packages_from(s, k, seen), rule, at) <==> rule == RULE_PACKAGE_LIST
            && exists|j: int, i: int| #[trigger] list_speaks(s, k, seen, j, i, at),
    decreases s.len() - k,
{
    let all = recipes::packages_from(s, k, seen);
    if k < s.len() {
        let words = listed(s[k]);
        let first = recipes::listed_from(words, 0, seen);
        let later = checks::with_words(seen, words, 0);
        let rest = recipes::packages_from(s, k + 1, later);
        assert(all =~= first + rest) by {
            if words.len() == 0 {
                assert(first =~= Seq::empty());
                assert(later == seen);
            }
        }
        lemma_lists(s, k + 1, later, rule, at);
        lemma_listed(words, 0, seen, rule, at);
        conditions::lemma_found_add(first, rest, rule, at);
        assert forall|i: int| #[trigger] list_speaks(s, k, seen, k, i, at) <==> word_speaks(
            words,
            0,
            seen,
            i,
            at,
        ) by {
            if 0 <= i < words.len() {
                assert(!listed_between(s, k, k, words[i].1));
            }
        }
        assert forall|j: int, i: int| j != k implies (#[trigger] list_speaks(s, k, seen, j, i, at)
            <==> list_speaks(s, k + 1, later, j, i, at)) by {
            if k < j < s.len() && 0 <= i < listed(s[j]).len() {
                let w = listed(s[j])[i].1;
                conditions::lemma_with_words(seen, words, 0, w);
                assert(listed_between(s, k, j, w) <==> statement_lists(s[k], w) || listed_between(
                    s,
                    k + 1,
                    j,
                    w,
                )) by {
                    if listed_between(s, k, j, w) {
                        let h = choose|h: int| k <= h < j && statement_lists(#[trigger] s[h], w);
                        if h > k {
                            assert(k + 1 <= h < j && statement_lists(s[h], w));
                        }
                    }
                }
            }
        }
        if exists|i: int| #[trigger] word_speaks(words, 0, seen, i, at) {
            let i = choose|i: int| #[trigger] word_speaks(words, 0, seen, i, at);
            assert(list_speaks(s, k, seen, k, i, at));
        }
        if exists|j: int, i: int| #[trigger] list_speaks(s, k, seen, j, i, at) {
            let (j, i) = choose|j: int, i: int| #[trigger] list_speaks(s, k, seen, j, i, at);
            if j != k {
                assert(list_speaks(s, k + 1, later, j, i, at));
            } else {
                assert(word_speaks(words, 0, seen, i, at));
            }
        }
        if exists|j: int, i: int| #[trigger] list_speaks(s, k + 1, later, j, i, at) {
            let (j, i) = choose|j: int, i: int| #[trigger] list_speaks(s, k + 1, later, j, i, at);
            assert(j != k);
            assert(list_speaks(s, k, seen, j, i, at));
        }
    }
}

spec fn lists_from(s: Seq<StatementView>, k: int, j: int, i: int, package: Seq<char>) -> bool {
    k <= j && lists_at(s, j, i, package)
}

proof fn lemma_packages_of(s: Seq<StatementView>, k: int, seen: Seq<Seq<char>>, package: Seq<char>)
    requires
        0 <= k <= s.len(),
    ensures
        recipes::packages_of(s, k, seen).contains(package) <==> seen.contains(package) || exists|
            j: int,
            i: int,
        | #[trigger]
            lists_from(s, k, j, i, package),
    decreases s.len() - k,
{
    if k < s.len() {
        let words = listed(s[k]);
        let later = checks::with_words(seen, words, 0);
        if words.len() == 0 {
            assert(later == seen);
        }
        lemma_packages_of(s, k + 1, later, package);
        conditions::lemma_with_words(seen, words, 0, package);
        assert(recipes::packages_of(s, k, seen) == recipes::packages_of(s, k + 1, later));
        if conditions::word_between(words, 0, words.len() as int, package) {
            let i = choose|i: int| 0 <= i < words.len() && (#[trigger] words[i]).1 == package;
            assert(lists_from(s, k, k, i, package));
        }
        if exists|j: int, i: int| #[trigger] lists_from(s, k + 1, j, i, package) {
            let (j, i) = choose|j: int, i: int| #[trigger] lists_from(s, k + 1, j, i, package);
            assert(lists_from(s, k, j, i, package));
        }
        if exists|j: int, i: int| #[trigger] lists_from(s, k, j, i, package) {
            let (j, i) = choose|j: int, i: int| #[trigger] lists_from(s, k, j, i, package);
            if j == k {
                assert(words[i].1 == package);
            } else {
                assert(lists_from(s, k + 1, j, i, package));
            }
        }
    } else {
        assert forall|j: int, i: int| !(#[trigger] lists_from(s, k, j, i, package)) by {}
    }
}

proof fn lemma_packages_listed(s: Seq<StatementView>, package: Seq<char>)
    ensures
        recipes::packages_of(s, 0, Seq::empty()).contains(package) <==> lists_package(s, package),
{
    lemma_packages_of(s, 0, Seq::empty(), package);
    if exists|j: int, i: int| #[trigger] lists_from(s, 0, j, i, package) {
        let (j, i) = choose|j: int, i: int| #[trigger] lists_from(s, 0, j, i, package);
        assert(lists_at(s, j, i, package));
    }
    if lists_package(s, package) {
        let (j, i) = choose|j: int, i: int| #[trigger] lists_at(s, j, i, package);
        assert(lists_from(s, 0, j, i, package));
    }
}

spec fn scopes_of(packages: Seq<Seq<char>>) -> spec_fn(StatementView) -> Seq<FindingView> {
    |s: StatementView| recipes::scopes_from(seq![s], 0, packages)
}

proof fn lemma_scopes_gathered(s: Seq<StatementView>, k: int, packages: Seq<Seq<char>>)
    requires
        0 <= k <= s.len(),
    ensures
        recipes::scopes_from(s, k, packages) == gathered(s, k, scopes_of(packages)),
    decreases s.len() - k,
{
    if k < s.len() {
        lemma_scopes_gathered(s, k + 1, packages);
        let one = seq![s[k]];
        assert(one[0] == s[k]);
        assert(recipes::scopes_from(one, 1, packages) =~= Seq::empty());
        lemma_none(recipes::scopes_from(s, k + 1, packages));
        if let StatementView::Assignment(a) = s[k] {
            lemma_none(recipes::scope_findings(a, packages));
        }
    }
}

spec fn scope_at(s: Seq<StatementView>, k: int, at: int, packages: Seq<Seq<char>>) -> bool {
    0 <= k < s.len() && (s[k] matches StatementView::Assignment(a) && a.name_at == at
        && values::scoped_package(a.name) is Some && !values::scoped_package(a.name)->0.contains('$')
        && !packages.contains(values::scoped_package(a.name)->0))
}

proof fn lemma_scopes(s: Seq<StatementView>, packages: Seq<Seq<char>>, rule: usize, at: int)
    ensures
        conditions::found_at(recipes::scopes_from(s, 0, packages), rule, at) <==> rule == RULE_PACKAGE_SCOPE
            && exists|k: int| #[trigger] scope_at(s, k, at, packages),
{
    lemma_scopes_gathered(s, 0, packages);
    let f = scopes_of(packages);
    lemma_gathered(s, 0, f, rule, at);
    assert forall|k: int| #[trigger] speaks(s, 0, f, k, rule, at) <==> rule == RULE_PACKAGE_SCOPE
        && scope_at(s, k, at, packages) by {
        if 0 <= k < s.len() {
            let one = seq![s[k]];
            assert(one[0] == s[k]);
            assert(recipes::scopes_from(one, 1, packages) =~= Seq::empty());
            if let StatementView::Assignment(a) = s[k] {
                let found = recipes::scope_findings(a, packages);
                lemma_none(found);
                if found.len() > 0 {
                    conditions::lemma_found_one(found[0], rule, at);
                    assert(found =~= seq![found[0]]);
                }
            }
        }
    }
    if exists|k: int| #[trigger] speaks(s, 0, f, k, rule, at) {
        let k = choose|k: int| #[trigger] speaks(s, 0, f, k, rule, at);
        assert(scope_at(s, k, at, packages));
    }
    if rule == RULE_PACKAGE_SCOPE && exists|k: int| #[trigger] scope_at(s, k, at, packages) {
        let k = choose|k: int| #[trigger] scope_at(s, k, at, packages);
        assert(speaks(s, 0, f, k, rule, at));
    }
}

proof fn lemma_packages(s: Seq<StatementView>, rule: usize, at: int)
    ensures
        conditions::found_at(recipes::package_findings(s), rule, at) <==> {
            ||| rule == RULE_PACKAGE_LIST && exists|h: int, j: int, k: int, i: int| #[trigger]
                listed_again(s, h, j, k, i, at)
            ||| rule == RULE_PACKAGE_SCOPE && exists|k: int, package: Seq<char>| #[trigger]
                unlisted_package(s, k, at, package)
        },
{
    let none = Seq::<Seq<char>>::empty();
    let packages = recipes::packages_of(s, 0, none);
    lemma_lists(s, 0, none, rule, at);
    lemma_scopes(s, packages, rule, at);
    let first = recipes::packages_from(s, 0, none);
    let second = if packages.len() == 0 {
        Seq::empty()
    } else {
        recipes::scopes_from(s, 0, packages)
    };
    assert(recipes::package_findings(s) == first + second);
    conditions::lemma_found_add(first, second, rule, at);
    if exists|h: int, j: int, k: int, i: int| #[trigger] listed_again(s, h, j, k, i, at) {
        let (h, j, k, i) = choose|h: int, j: int, k: int, i: int| #[trigger]
            listed_again(s, h, j, k, i, at);
        let w = listed(s[k])[i].1;
        assert(listed(s[h])[j].1 == w);
        if h < k {
            assert(statement_lists(s[h], w));
            assert(listed_between(s, 0, k, w));
        } else {
            assert(conditions::word_between(listed(s[k]), 0, i, w));
        }
        assert(list_speaks(s, 0, none, k, i, at));
    }
    if exists|k: int, i: int| #[trigger] list_speaks(s, 0, none, k, i, at) {
        let (k, i) = choose|k: int, i: int| #[trigger] list_speaks(s, 0, none, k, i, at);
        let w = listed(s[k])[i].1;
        if conditions::word_between(listed(s[k]), 0, i, w) {
            let j = choose|j: int| 0 <= j < i && (#[trigger] listed(s[k])[j]).1 == w;
            assert(listed_again(s, k, j, k, i, at));
        } else {
            let h = choose|h: int| 0 <= h < k && statement_lists(#[trigger] s[h], w);
            let j = choose|j: int|
                0 <= j < listed(s[h]).len() && (#[trigger] listed(s[h])[j]).1 == w;
            assert(listed_again(s, h, j, k, i, at));
        }
    }
    assert(packages.len() > 0 <==> exists|other: Seq<char>| #[trigger] lists_package(s, other)) by {
        if packages.len() > 0 {
            lemma_packages_listed(s, packages[0]);
            assert(packages.contains(packages[0]));
        }
        if exists|other: Seq<char>| #[trigger] lists_package(s, other) {
            let other = choose|other: Seq<char>| #[trigger] lists_package(s, other);
            lemma_packages_listed(s, other);
        }
    }
    if exists|k: int| #[trigger] scope_at(s, k, at, packages) {
        let k = choose|k: int| #[trigger] scope_at(s, k, at, packages);
        let package = values::scoped_package(s[k]->Assignment_0.name)->0;
        lemma_packages_listed(s, package);
        if packages.len() > 0 {
            assert(unlisted_package(s, k, at, package));
        }
    }
    if exists|k: int, package: Seq<char>| #[trigger] unlisted_package(s, k, at, package) {
        let (k, package) = choose|k: int, package: Seq<char>| #[trigger]
            unlisted_package(s, k, at, package);
        lemma_packages_listed(s, package);
        assert(scope_at(s, k, at, packages));
    }
    conditions::lemma_found_none(rule, at);
}

// ---------------------------------------------------------------------------
// Parameters
// ---------------------------------------------------------------------------
proof fn lemma_key(p: Seq<char>, key: Seq<char>)
    ensures
        has_key(p, key) <==> text::find_from(p, '=', 0) < p.len() && key == p.take(
            text::find_from(p, '=', 0),
        ),
{
    text::lemma_find(p, '=', 0);
    let e = text::find_from(p, '=', 0);
    if has_key(p, key) {
        let n = key.len() as int;
        assert forall|k: int| 0 <= k < n implies #[trigger] p[k] != '=' by {
            assert(p[k] == p.take(n)[k]);
            assert(key[k] == p[k]);
        }
        text::lemma_find_unique(p, '=', 0, n);
    }
    if e < p.len() && key == p.take(e) {
        assert(key.len() == e);
        if key.contains('=') {
            let k = choose|k: int| 0 <= k < key.len() && key[k] == '=';
            assert(key[k] == p[k]);
        }
    }
}

spec fn key_between(parts: Seq<Seq<char>>, k: int, j: int, key: Seq<char>) -> bool {
    exists|h: int| k <= h < j && has_key(#[trigger] parts[h], key)
}

spec fn bad_at(
    uri: Seq<char>,
    parts: Seq<Seq<char>>,
    k: int,
    seen: Seq<Seq<char>>,
    j: int,
) -> bool {
    let e = text::find_from(parts[j], '=', 0);
    let key = parts[j].take(e);
    k <= j < parts.len() && e < parts[j].len() && (values::bad_parameter(
        uri,
        key,
        parts[j].skip(e + 1),
        seen,
    ) || key_between(parts, k, j, key))
}

proof fn lemma_bad(uri: Seq<char>, parts: Seq<Seq<char>>, k: int, seen: Seq<Seq<char>>, j: int)
    requires
        0 <= k <= parts.len(),
    ensures
        values::bad_from(uri, parts, k, seen).contains(j) <==> bad_at(uri, parts, k, seen, j),
    decreases parts.len() - k,
{
    if k < parts.len() {
        let p = parts[k];
        let e = text::find_from(p, '=', 0);
        text::lemma_find(p, '=', 0);
        let key = p.take(e);
        let later = if e < p.len() {
            values::seen_after(seen, key)
        } else {
            seen
        };
        lemma_bad(uri, parts, k + 1, later, j);
        let all = values::bad_from(uri, parts, k, seen);
        let rest = values::bad_from(uri, parts, k + 1, later);
        let wrong = e < p.len() && values::bad_parameter(uri, key, p.skip(e + 1), seen);
        if wrong {
            assert(all =~= seq![k] + rest);
            lemma_contains_add(seq![k], rest, j);
            assert(seq![k][0] == k);
        }
        lemma_key(p, key);
        if j == k {
            assert(!key_between(parts, k, k, key));
            assert(!bad_at(uri, parts, k + 1, later, k));
        } else if k < j < parts.len() {
            let own = parts[j].take(text::find_from(parts[j], '=', 0));
            text::lemma_find(parts[j], '=', 0);
            lemma_key(p, own);
            conditions::lemma_pushed_contains(seen, key, own);
            assert(key_between(parts, k, j, own) <==> has_key(p, own) || key_between(
                parts,
                k + 1,
                j,
                own,
            )) by {
                if key_between(parts, k, j, own) {
                    let h = choose|h: int| k <= h < j && has_key(#[trigger] parts[h], own);
                    if h > k {
                        assert(k + 1 <= h < j && has_key(parts[h], own));
                    }
                }
            }
            assert(bad_at(uri, parts, k, seen, j) <==> bad_at(uri, parts, k + 1, later, j));
        }
    }
}

proof fn lemma_wrong(uri: Seq<char>, j: int)
    ensures
        values::bad_parameters(uri).contains(j) <==> exists|key: Seq<char>| #[trigger]
            wrong_parameter(uri, j, key),
{
    let parts = values::pieces(uri, ';');
    let none = Seq::<Seq<char>>::empty();
    assert(parts.len() >= 1);
    lemma_bad(uri, parts, 1, none, j);
    if 1 <= j < parts.len() {
        let e = text::find_from(parts[j], '=', 0);
        text::lemma_find(parts[j], '=', 0);
        let key = parts[j].take(e);
        assert forall|other: Seq<char>| #[trigger] wrong_parameter(uri, j, other) implies other
            == key && e < parts[j].len() by {
            lemma_key(parts[j], other);
        }
        lemma_key(parts[j], key);
        reveal_strlit("branch");
        reveal_strlit("protocol");
        assert(bad_at(uri, parts, 1, none, j) <==> wrong_parameter(uri, j, key));
    }
}

proof fn lemma_piece_ranges(t: Seq<char>, c: char, i: int, k: int)
    requires
        0 <= i <= t.len(),
        0 <= k < values::pieces_from(t, c, i).len(),
    ensures
        0 <= values::pieces_from(t, c, i)[k].0 <= values::pieces_from(t, c, i)[k].1 <= t.len(),
    decreases t.len() - i,
{
    text::lemma_find(t, c, i);
    let e = text::find_from(t, c, i);
    if e < t.len() && k > 0 {
        lemma_piece_ranges(t, c, e + 1, k - 1);
        assert(values::pieces_from(t, c, i)[k] == values::pieces_from(t, c, e + 1)[k - 1]);
    }
}

/// A part of an address is found in it.
proof fn lemma_part_found(uri: Seq<char>, j: int, o: int)
    requires
        0 <= j < values::pieces(uri, ';').len(),
        values::pieces(uri, ';')[j].len() > 0,
    ensures
        first_at(uri, values::pieces(uri, ';')[j], o) <==> o == text::find_seq(
            uri,
            values::pieces(uri, ';')[j],
            0,
        ),
{
    let p = values::pieces(uri, ';')[j];
    let n = p.len() as int;
    lemma_piece_ranges(uri, ';', 0, j);
    let (a, b) = values::pieces_of(uri, ';')[j];
    assert(p == uri.subrange(a, b));
    conditions::lemma_first_place(uri, p, 0);
    let found = text::find_seq(uri, p, 0);
    assert(uri.subrange(a, a + n) == p);
    assert(found >= 0);
    if first_at(uri, p, o) {
        if found < o {
            assert(uri.subrange(found, found + n) != p);
        }
        if o < found {
            assert(uri.subrange(o, o + n) != p);
        }
    }
    assert forall|k: int| 0 <= k < found implies #[trigger] uri.subrange(k, k + n) != p by {}
}

proof fn lemma_parameters(w: (int, Seq<char>), bad: Seq<int>, j: int, rule: usize, at: int)
    requires
        0 <= j <= bad.len(),
    ensures
        conditions::found_at(recipes::parameters_from(w, bad, j), rule, at) <==> rule == RULE_URI_PARAMETERS
            && exists|k: int|
            j <= k < bad.len() && at == w.0 + text::find_seq(
                w.1,
                values::pieces(w.1, ';')[#[trigger] bad[k]],
                0,
            ),
    decreases bad.len() - j,
{
    let all = recipes::parameters_from(w, bad, j);
    if j < bad.len() {
        lemma_parameters(w, bad, j + 1, rule, at);
        let rest = recipes::parameters_from(w, bad, j + 1);
        let f = recipes::parameter_finding(w, values::pieces(w.1, ';')[bad[j]]);
        conditions::lemma_found_add(seq![f], rest, rule, at);
        conditions::lemma_found_one(f, rule, at);
        assert(all =~= seq![f] + rest);
    }
}

spec fn address_of() -> spec_fn((int, Seq<char>)) -> Seq<FindingView> {
    |w: (int, Seq<char>)| recipes::parameters_from(w, values::bad_parameters(w.1), 0)
}

proof fn lemma_addresses(words: Seq<(int, Seq<char>)>, k: int)
    requires
        0 <= k <= words.len(),
    ensures
        recipes::addresses_from(words, k) == gathered(words, k, address_of()),
    decreases words.len() - k,
{
    if k < words.len() {
        lemma_addresses(words, k + 1);
    }
}

spec fn uris_of() -> spec_fn(StatementView) -> Seq<FindingView> {
    |s: StatementView| recipes::uri_parameters_from(seq![s], 0)
}

proof fn lemma_uris_gathered(s: Seq<StatementView>, k: int)
    requires
        0 <= k <= s.len(),
    ensures
        recipes::uri_parameters_from(s, k) == gathered(s, k, uris_of()),
    decreases s.len() - k,
{
    if k < s.len() {
        lemma_uris_gathered(s, k + 1);
        let one = seq![s[k]];
        assert(one[0] == s[k]);
        assert(recipes::uri_parameters_from(one, 1) =~= Seq::empty());
        lemma_none(recipes::uri_parameters_from(s, k + 1));
        if let StatementView::Assignment(a) = s[k] {
            lemma_none(recipes::addresses_from(checks::assigned_words(a), 0));
        }
    }
}

spec fn uri_at(s: Seq<StatementView>, k: int, at: int) -> bool {
    0 <= k < s.len() && exists|i: int, w: (int, Seq<char>), j: int| #[trigger]
        parameter_at(s[k], i, w, j, at)
}

proof fn lemma_address(w: (int, Seq<char>), rule: usize, at: int)
    ensures
        conditions::found_at(address_of()(w), rule, at) <==> rule == RULE_URI_PARAMETERS && exists|j: int| #[trigger]
            told_at(w, j, at),
{
    let bad = values::bad_parameters(w.1);
    let parts = values::pieces(w.1, ';');
    lemma_parameters(w, bad, 0, rule, at);
    assert forall|j: int| bad.contains(j) implies 1 <= j < parts.len() && (#[trigger] parts[j]).len()
        > 0 by {
        lemma_wrong(w.1, j);
        let key = choose|key: Seq<char>| #[trigger] wrong_parameter(w.1, j, key);
    }
    if exists|k: int| 0 <= k < bad.len() && at == w.0 + text::find_seq(
        w.1,
        parts[#[trigger] bad[k]],
        0,
    ) {
        let k = choose|k: int|
            0 <= k < bad.len() && at == w.0 + text::find_seq(w.1, parts[#[trigger] bad[k]], 0);
        let j = bad[k];
        assert(bad.contains(j));
        lemma_wrong(w.1, j);
        assert(parts[j].len() > 0);
        lemma_part_found(w.1, j, at - w.0);
        assert(told_at(w, j, at));
    }
    if exists|j: int| #[trigger] told_at(w, j, at) {
        let j = choose|j: int| #[trigger] told_at(w, j, at);
        lemma_wrong(w.1, j);
        assert(bad.contains(j));
        let k = choose|k: int| 0 <= k < bad.len() && bad[k] == j;
        assert(parts[j].len() > 0);
        lemma_part_found(w.1, j, at - w.0);
        assert(bad[k] == j);
    }
}

spec fn told_at(w: (int, Seq<char>), j: int, at: int) -> bool {
    &&& exists|key: Seq<char>| #[trigger] wrong_parameter(w.1, j, key)
    &&& first_at(w.1, values::pieces(w.1, ';')[j], at - w.0)
}

proof fn lemma_uris(s: Seq<StatementView>, rule: usize, at: int)
    ensures
        conditions::found_at(recipes::uri_parameters_from(s, 0), rule, at) <==> rule == RULE_URI_PARAMETERS
            && exists|k: int| #[trigger] uri_at(s, k, at),
{
    lemma_uris_gathered(s, 0);
    let f = uris_of();
    lemma_gathered(s, 0, f, rule, at);
    assert forall|k: int| #[trigger] speaks(s, 0, f, k, rule, at) <==> rule == RULE_URI_PARAMETERS
        && uri_at(s, k, at) by {
        if 0 <= k < s.len() {
            let one = seq![s[k]];
            assert(one[0] == s[k]);
            assert(recipes::uri_parameters_from(one, 1) =~= Seq::empty());
            if let StatementView::Assignment(a) = s[k] {
                conditions::lemma_variable(a.name, "SRC_URI"@);
                let words = checks::assigned_words(a);
                lemma_none(recipes::addresses_from(words, 0));
                if conditions::variable_or_variant(a.name, "SRC_URI"@) {
                    lemma_addresses(words, 0);
                    let g = address_of();
                    lemma_gathered(words, 0, g, rule, at);
                    if exists|i: int| #[trigger] speaks(words, 0, g, i, rule, at) {
                        let i = choose|i: int| #[trigger] speaks(words, 0, g, i, rule, at);
                        lemma_address(words[i], rule, at);
                        let j = choose|j: int| #[trigger] told_at(words[i], j, at);
                        assert(parameter_at(s[k], i, words[i], j, at));
                    }
                    if rule == RULE_URI_PARAMETERS && uri_at(s, k, at) {
                        let (i, w, j) = choose|i: int, w: (int, Seq<char>), j: int| #[trigger]
                            parameter_at(s[k], i, w, j, at);
                        assert(words[i] == w);
                        assert(told_at(w, j, at));
                        lemma_address(words[i], rule, at);
                        assert(speaks(words, 0, g, i, rule, at));
                    }
                }
            }
        }
    }
    if exists|k: int| #[trigger] speaks(s, 0, f, k, rule, at) {
        let k = choose|k: int| #[trigger] speaks(s, 0, f, k, rule, at);
        assert(uri_at(s, k, at));
    }
    if rule == RULE_URI_PARAMETERS && exists|k: int| #[trigger] uri_at(s, k, at) {
        let k = choose|k: int| #[trigger] uri_at(s, k, at);
        assert(speaks(s, 0, f, k, rule, at));
    }
}

// ---------------------------------------------------------------------------
// The laws
// ---------------------------------------------------------------------------
proof fn lemma_recipe_found(source: Seq<char>, path: Seq<char>, rule: usize, at: int)
    requires
        paths::extension(path) == Some("bb"@),
    ensures
        ({
            let s = statements::statements_of(source);
            conditions::found_at(recipes::recipe_findings(source, path), rule, at) <==> {
                ||| conditions::found_at(recipes::recipe_identity_findings(s, path), rule, at)
                ||| conditions::found_at(recipes::license_findings(s), rule, at)
                ||| conditions::found_at(recipes::sources_from(s, 0), rule, at)
                ||| conditions::found_at(recipes::packageconfig_findings(s), rule, at)
                ||| conditions::found_at(recipes::package_findings(s), rule, at)
                ||| conditions::found_at(recipes::uri_parameters_from(s, 0), rule, at)
            }
        }),
{
    let s = statements::statements_of(source);
    let p1 = recipes::recipe_identity_findings(s, path);
    let p2 = recipes::license_findings(s);
    let p3 = recipes::sources_from(s, 0);
    let p4 = recipes::packageconfig_findings(s);
    let p5 = recipes::package_findings(s);
    let p6 = recipes::uri_parameters_from(s, 0);
    conditions::lemma_found_add(p1 + p2 + p3 + p4 + p5, p6, rule, at);
    conditions::lemma_found_add(p1 + p2 + p3 + p4, p5, rule, at);
    conditions::lemma_found_add(p1 + p2 + p3, p4, rule, at);
    conditions::lemma_found_add(p1 + p2, p3, rule, at);
    conditions::lemma_found_add(p1, p2, rule, at);
}

proof fn lemma_recipe_rule(source: Seq<char>, path: Seq<char>, rule: usize, at: int)
    requires
        paths::extension(path) == Some("bb"@),
    ensures
        ({
            let s = statements::statements_of(source);
            conditions::found_at(recipes::recipe_findings(source, path), rule, at) <==> {
                ||| conditions::found_at(recipes::recipe_identity_findings(s, path), rule, at) && (rule
                    == RULE_RECIPE_NAME || rule == RULE_RECIPE_VERSION)
                ||| rule == RULE_LICENSE_CHECKSUM && exists|k: int| #[trigger]
                    unchecked_license(s, k, at)
                ||| rule == RULE_SOURCE_CHECKSUM && exists|k: int| #[trigger] archive_at(s, k, at)
                ||| rule == RULE_PACKAGECONFIG_FORMAT && exists|k: int| #[trigger]
                    fields_at(s, k, at)
                ||| rule == RULE_PACKAGECONFIG && exists|k: int, i: int, feature: Seq<char>| #[trigger]
                    undefined_feature(s, k, i, at, feature)
                ||| rule == RULE_PACKAGE_LIST && exists|h: int, j: int, k: int, i: int| #[trigger]
                    listed_again(s, h, j, k, i, at)
                ||| rule == RULE_PACKAGE_SCOPE && exists|k: int, package: Seq<char>| #[trigger]
                    unlisted_package(s, k, at, package)
                ||| rule == RULE_URI_PARAMETERS && exists|k: int| #[trigger] uri_at(s, k, at)
            }
        }),
{
    let s = statements::statements_of(source);
    lemma_recipe_found(source, path, rule, at);
    if conditions::found_at(recipes::recipe_identity_findings(s, path), rule, at) {
        recipes::lemma_identity_rules(s, path, rule, at);
    }
    lemma_licenses(s, rule, at);
    lemma_sources(s, rule, at);
    lemma_features(s, rule, at);
    lemma_packages(s, rule, at);
    lemma_uris(s, rule, at);
}

/// When the rules on sources and licenses speak: on a remote archive of
/// `SRC_URI` without a checksum of the right length, on the license files of a
/// recipe whose license is not closed, and on a wrong parameter of an address.
pub proof fn law_source_rules(source: Seq<char>, path: Seq<char>, at: int)
    requires
        paths::extension(path) == Some("bb"@),
    ensures
        ({
            let s = statements::statements_of(source);
            let found = recipes::recipe_findings(source, path);
            &&& conditions::found_at(found, RULE_SOURCE_CHECKSUM, at) <==> exists|
                k: int,
                i: int,
                uri: Seq<char>,
            |
                0 <= k < s.len() && #[trigger] unchecked_archive(s[k], i, at, uri)
            &&& conditions::found_at(found, RULE_LICENSE_CHECKSUM, at) <==> exists|k: int| #[trigger]
                unchecked_license(s, k, at)
            &&& conditions::found_at(found, RULE_URI_PARAMETERS, at) <==> exists|
                k: int,
                i: int,
                w: (int, Seq<char>),
                j: int,
            |
                0 <= k < s.len() && #[trigger] parameter_at(s[k], i, w, j, at)
        }),
{
    let s = statements::statements_of(source);
    lemma_recipe_rule(source, path, RULE_SOURCE_CHECKSUM, at);
    lemma_recipe_rule(source, path, RULE_LICENSE_CHECKSUM, at);
    lemma_recipe_rule(source, path, RULE_URI_PARAMETERS, at);
    if exists|k: int, i: int, uri: Seq<char>|
        0 <= k < s.len() && #[trigger] unchecked_archive(s[k], i, at, uri) {
        let (k, i, uri) = choose|k: int, i: int, uri: Seq<char>|
            0 <= k < s.len() && #[trigger] unchecked_archive(s[k], i, at, uri);
        assert(archive_at(s, k, at));
    }
    if exists|k: int, i: int, w: (int, Seq<char>), j: int|
        0 <= k < s.len() && #[trigger] parameter_at(s[k], i, w, j, at) {
        let (k, i, w, j) = choose|k: int, i: int, w: (int, Seq<char>), j: int|
            0 <= k < s.len() && #[trigger] parameter_at(s[k], i, w, j, at);
        assert(uri_at(s, k, at));
    }
}

/// When the rules on features and packages speak: on a feature flag with another
/// number of fields than three or four, on a feature that is enabled and not
/// defined, on a package that is listed twice, and on a variable about a package
/// that is not listed.
pub proof fn law_package_rules(source: Seq<char>, path: Seq<char>, at: int)
    requires
        paths::extension(path) == Some("bb"@),
    ensures
        ({
            let s = statements::statements_of(source);
            let found = recipes::recipe_findings(source, path);
            &&& conditions::found_at(found, RULE_PACKAGECONFIG_FORMAT, at) <==> exists|
                k: int,
                feature: Seq<char>,
            |
                0 <= k < s.len() && #[trigger] wrong_fields(s[k], feature, at)
            &&& conditions::found_at(found, RULE_PACKAGECONFIG, at) <==> exists|
                k: int,
                i: int,
                feature: Seq<char>,
            | #[trigger]
                undefined_feature(s, k, i, at, feature)
            &&& conditions::found_at(found, RULE_PACKAGE_LIST, at) <==> exists|
                h: int,
                j: int,
                k: int,
                i: int,
            | #[trigger]
                listed_again(s, h, j, k, i, at)
            &&& conditions::found_at(found, RULE_PACKAGE_SCOPE, at) <==> exists|k: int, package: Seq<char>| #[trigger]
                unlisted_package(s, k, at, package)
        }),
{
    let s = statements::statements_of(source);
    lemma_recipe_rule(source, path, RULE_PACKAGECONFIG_FORMAT, at);
    lemma_recipe_rule(source, path, RULE_PACKAGECONFIG, at);
    lemma_recipe_rule(source, path, RULE_PACKAGE_LIST, at);
    lemma_recipe_rule(source, path, RULE_PACKAGE_SCOPE, at);
    if exists|k: int, feature: Seq<char>|
        0 <= k < s.len() && #[trigger] wrong_fields(s[k], feature, at) {
        let (k, feature) = choose|k: int, feature: Seq<char>|
            0 <= k < s.len() && #[trigger] wrong_fields(s[k], feature, at);
        assert(fields_at(s, k, at));
    }
}

/// When the rules on the name and the version of a recipe speak, in the file
/// `name_version.bb`: exactly where `PN` is given a written-out text other than
/// `name`, and `PV` one other than `version`.
pub proof fn law_identity_rules(
    source: Seq<char>,
    path: Seq<char>,
    name: Seq<char>,
    version: Seq<char>,
    at: int,
)
    requires
        paths::extension(path) == Some("bb"@),
        paths::file_name(path) == Some(name + seq!['_'] + version + ".bb"@),
        recipes::literal_part(name),
        recipes::literal_part(version),
        !version.contains('_'),
    ensures
        ({
            let s = statements::statements_of(source);
            let found = recipes::recipe_findings(source, path);
            &&& conditions::found_at(found, RULE_RECIPE_NAME, at) <==> exists|to: int| #[trigger]
                recipes::contradicted_at(s, "PN"@, name, at, to)
            &&& conditions::found_at(found, RULE_RECIPE_VERSION, at) <==> exists|to: int| #[trigger]
                recipes::contradicted_at(s, "PV"@, version, at, to)
        }),
{
    let s = statements::statements_of(source);
    lemma_recipe_rule(source, path, RULE_RECIPE_NAME, at);
    lemma_recipe_rule(source, path, RULE_RECIPE_VERSION, at);
    recipes::law_identity_findings_are_contradictions(s, path, name, version);
}

/// When the rules on missing metadata speak: at the end of a recipe that assigns
/// no `SUMMARY`, no `DESCRIPTION` or no `LICENSE`.
pub proof fn law_missing_metadata_rules(source: Seq<char>, at: int)
    ensures
        ({
            let s = statements::statements_of(source);
            let found = recipes::metadata_findings(source);
            &&& conditions::found_at(found, RULE_MISSING_SUMMARY, at) <==> at == source.len() && forall|k: int|
                0 <= k < s.len() ==> !assigns_to(#[trigger] s[k], "SUMMARY"@)
            &&& conditions::found_at(found, RULE_MISSING_DESCRIPTION, at) <==> at == source.len() && forall|
                k: int,
            |
                0 <= k < s.len() ==> !assigns_to(#[trigger] s[k], "DESCRIPTION"@)
            &&& conditions::found_at(found, RULE_MISSING_LICENSE, at) <==> at == source.len() && forall|k: int|
                0 <= k < s.len() ==> !assigns_to(#[trigger] s[k], "LICENSE"@)
        }),
{
    lemma_missing(source, RULE_MISSING_SUMMARY, at);
    lemma_missing(source, RULE_MISSING_DESCRIPTION, at);
    lemma_missing(source, RULE_MISSING_LICENSE, at);
}

spec fn assigns_nowhere(s: Seq<StatementView>, name: Seq<char>) -> bool {
    forall|k: int| 0 <= k < s.len() ==> !assigns_to(#[trigger] s[k], name)
}

proof fn lemma_missing(source: Seq<char>, rule: usize, at: int)
    ensures
        ({
            let s = statements::statements_of(source);
            conditions::found_at(recipes::metadata_findings(source), rule, at) <==> at == source.len() && {
                ||| rule == RULE_MISSING_SUMMARY && assigns_nowhere(s, "SUMMARY"@)
                ||| rule == RULE_MISSING_DESCRIPTION && assigns_nowhere(s, "DESCRIPTION"@)
                ||| rule == RULE_MISSING_LICENSE && assigns_nowhere(s, "LICENSE"@)
            }
        }),
{
    let s = statements::statements_of(source);
    assert forall|name: Seq<char>| #[trigger] recipes::assigns(s, name) <==> !assigns_nowhere(s, name) by {
        if recipes::assigns(s, name) {
            let k = choose|k: int|
                0 <= k < s.len() && (#[trigger] s[k]) is Assignment && s[k]->Assignment_0.name
                    == name;
            assert(assigns_to(s[k], name));
        }
    }
    let all = recipes::metadata_findings(source);
    assert forall|r: usize, name: Seq<char>, message: Seq<char>| conditions::found_at(
        #[trigger] recipes::missing_finding(source, r, name, message),
        rule,
        at,
    ) <==> rule == r && at == source.len() && assigns_nowhere(s, name) by {
        let found = recipes::missing_finding(source, r, name, message);
        if found.len() > 0 {
            conditions::lemma_found_one(found[0], rule, at);
            assert(found =~= seq![found[0]]);
        } else {
            conditions::lemma_found_none(rule, at);
        }
    }
    let p1 = recipes::missing_finding(
        source,
        RULE_MISSING_SUMMARY,
        "SUMMARY"@,
        "recipe is missing a SUMMARY assignment"@,
    );
    let p2 = recipes::missing_finding(
        source,
        RULE_MISSING_DESCRIPTION,
        "DESCRIPTION"@,
        "recipe is missing a DESCRIPTION assignment"@,
    );
    let p3 = recipes::missing_finding(
        source,
        RULE_MISSING_LICENSE,
        "LICENSE"@,
        "recipe is missing a LICENSE assignment"@,
    );
    conditions::lemma_found_add(p1 + p2, p3, rule, at);
    conditions::lemma_found_add(p1, p2, rule, at);
}

} // verus!
