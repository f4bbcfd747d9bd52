//! When the rules on layer configurations speak, said of the statements of the
//! configuration.
use crate::checks;
use crate::conditions;
use crate::findings;
use crate::layer_rules;
use crate::numbers;
use crate::orders;
use crate::recipe_conditions;
use crate::statements;
use crate::values;
use crate::orders::TextOrder;
use crate::rules::RULE_LAYER_COLLECTIONS;
use crate::rules::RULE_LAYER_DEPENDS;
use crate::rules::RULE_LAYER_PATTERN;
use crate::rules::RULE_LAYER_PRIORITY;
use crate::rules::RULE_LAYER_SERIES_COMPAT;
use crate::statements::StatementView;
use vstd::prelude::*;

verus! {

// ---------------------------------------------------------------------------
// Conditions
// ---------------------------------------------------------------------------
/// The collections that a statement declares, each with its place.
pub open spec fn declared(s: StatementView) -> Seq<(int, Seq<char>)> {
    match s {
        StatementView::Assignment(a) => if a.name == "BBFILE_COLLECTIONS"@ {
            checks::assigned_words(a)
        } else {
            Seq::empty()
        },
        _ => Seq::empty(),
    }
}

/// Word `i` of statement `k` declares a collection at `at`.
pub open spec fn declares_at(
    s: Seq<StatementView>,
    k: int,
    i: int,
    at: int,
    collection: Seq<char>,
) -> bool {
    0 <= k < s.len() && 0 <= i < declared(s[k]).len() && declared(s[k])[i] == (at, collection)
}

/// Whether the statements declare the collection.
pub open spec fn declares_collection(s: Seq<StatementView>, collection: Seq<char>) -> bool {
    exists|k: int, i: int, at: int| #[trigger] declares_at(s, k, i, at, collection)
}

/// Word `i` of statement `k` declares at `at` a collection that an earlier word,
/// `j` of statement `h`, declares.
pub open spec fn redeclared_at(
    s: Seq<StatementView>,
    h: int,
    j: int,
    k: int,
    i: int,
    at: int,
) -> bool {
    &&& 0 <= h <= k < s.len()
    &&& 0 <= i < declared(s[k]).len()
    &&& 0 <= j < declared(s[h]).len()
    &&& h < k || j < i
    &&& declared(s[h])[j].1 == declared(s[k])[i].1
    &&& declared(s[k])[i].0 == at
}

/// A declaration of collections that is computed.
pub open spec fn computed(s: StatementView) -> bool {
    s matches StatementView::Assignment(a) && a.name == "BBFILE_COLLECTIONS"@ && (
    values::quoted_text(a.value) matches Some(t) && (t.contains('$') || t.contains('{')))
}

/// Statement `k` is the first that assigns `name`.
pub open spec fn assigns_first(s: Seq<StatementView>, k: int, name: Seq<char>) -> bool {
    &&& 0 <= k < s.len()
    &&& recipe_conditions::assigns_to(s[k], name)
    &&& forall|j: int| 0 <= j < k ==> !recipe_conditions::assigns_to(#[trigger] s[j], name)
}

pub open spec fn never_assigned(s: Seq<StatementView>, name: Seq<char>) -> bool {
    forall|j: int| 0 <= j < s.len() ==> !recipe_conditions::assigns_to(#[trigger] s[j], name)
}

/// A variable that a collection needs is not assigned, told at the end of the
/// configuration, or its first assignment says nothing.
pub open spec fn needed_missing(source: Seq<char>, name: Seq<char>, at: int) -> bool {
    let s = statements::statements_of(source);
    (never_assigned(s, name) && at == source.len()) || exists|k: int| #[trigger]
        assigns_first(s, k, name) && at == s[k]->Assignment_0.name_at && !(values::scalar(
            s[k]->Assignment_0.value,
        ) matches Some(t) && t.len() > 0)
}

/// The priority of a collection is not assigned, or its first assignment is
/// neither an integer of 32 bits nor computed.
pub open spec fn priority_wrong(source: Seq<char>, name: Seq<char>, at: int) -> bool {
    let s = statements::statements_of(source);
    (never_assigned(s, name) && at == source.len()) || exists|k: int| #[trigger]
        assigns_first(s, k, name) && at == s[k]->Assignment_0.name_at && !(values::scalar(
            s[k]->Assignment_0.value,
        ) matches Some(t) && (t.contains('$') || numbers::integer_value(
            t,
            true,
            -0x8000_0000,
            0x7fff_ffff,
        ) is Some))
}

/// A dependency on a collection that is not known, in the first assignment.
pub open spec fn unknown_dependency(
    source: Seq<char>,
    name: Seq<char>,
    known: Seq<Seq<char>>,
    k: int,
    i: int,
    at: int,
) -> bool {
    let s = statements::statements_of(source);
    assigns_first(s, k, name) && {
        let words = checks::assigned_words(s[k]->Assignment_0);
        let word = words[i].1;
        &&& 0 <= i < words.len()
        &&& words[i].0 == at
        &&& !known.contains(word)
        &&& word.len() > 0 ==> word[0] != '(' && word.last() != ')'
    }
}

// ---------------------------------------------------------------------------
// Lists of findings
// ---------------------------------------------------------------------------
proof fn lemma_first(s: Seq<StatementView>, name: Seq<char>, k: int)
    requires
        0 <= k <= s.len(),
        forall|j: int| 0 <= j < k ==> !recipe_conditions::assigns_to(#[trigger] s[j], name),
    ensures
        match layer_rules::first_assignment(s, name, k) {
            Some(a) => exists|h: int| #[trigger] assigns_first(s, h, name) && s[h]->Assignment_0 == a,
            None => never_assigned(s, name),
        },
    decreases s.len() - k,
{
    if k < s.len() {
        if recipe_conditions::assigns_to(s[k], name) {
            assert(assigns_first(s, k, name));
        } else {
            lemma_first(s, name, k + 1);
        }
    }
}

proof fn lemma_one_first(s: Seq<StatementView>, name: Seq<char>, j: int, k: int)
    requires
        assigns_first(s, j, name),
        assigns_first(s, k, name),
    ensures
        j == k,
{
    if j < k {
        assert(!recipe_conditions::assigns_to(s[j], name));
    }
    if k < j {
        assert(!recipe_conditions::assigns_to(s[k], name));
    }
}

proof fn lemma_needed(
    source: Seq<char>,
    own: usize,
    prefix: Seq<char>,
    collection: Seq<char>,
    rule: usize,
    at: int,
)
    ensures
        conditions::found_at(layer_rules::needed_findings(source, own, prefix, collection), rule, at)
            <==> rule == own && needed_missing(source, prefix + collection, at),
{
    let s = statements::statements_of(source);
    let name = prefix + collection;
    let found = layer_rules::needed_findings(source, own, prefix, collection);
    lemma_first(s, name, 0);
    if found.len() > 0 {
        conditions::lemma_found_one(found[0], rule, at);
        assert(found =~= seq![found[0]]);
    }
    if let Some(a) = layer_rules::first_assignment(s, name, 0) {
        let h = choose|h: int| #[trigger] assigns_first(s, h, name) && s[h]->Assignment_0 == a;
        assert(!never_assigned(s, name));
        assert forall|k: int| #[trigger] assigns_first(s, k, name) implies k == h by {
            lemma_one_first(s, name, k, h);
        }
    } else {
        assert forall|k: int| !(#[trigger] assigns_first(s, k, name)) by {
            if assigns_first(s, k, name) {
                assert(!recipe_conditions::assigns_to(s[k], name));
            }
        }
    }
}

proof fn lemma_priority(source: Seq<char>, collection: Seq<char>, rule: usize, at: int)
    ensures
        conditions::found_at(layer_rules::priority_findings(source, collection), rule, at) <==> rule
            == RULE_LAYER_PRIORITY && priority_wrong(source, "BBFILE_PRIORITY_"@ + collection, at),
{
    let s = statements::statements_of(source);
    let name = "BBFILE_PRIORITY_"@ + collection;
    let found = layer_rules::priority_findings(source, collection);
    lemma_first(s, name, 0);
    if found.len() > 0 {
        conditions::lemma_found_one(found[0], rule, at);
        assert(found =~= seq![found[0]]);
    }
    if let Some(a) = layer_rules::first_assignment(s, name, 0) {
        let h = choose|h: int| #[trigger] assigns_first(s, h, name) && s[h]->Assignment_0 == a;
        assert(!never_assigned(s, name));
        assert forall|k: int| #[trigger] assigns_first(s, k, name) implies k == h by {
            lemma_one_first(s, name, k, h);
        }
    } else {
        assert forall|k: int| !(#[trigger] assigns_first(s, k, name)) by {
            if assigns_first(s, k, name) {
                assert(!recipe_conditions::assigns_to(s[k], name));
            }
        }
    }
}

spec fn unknown_word(words: Seq<(int, Seq<char>)>, known: Seq<Seq<char>>, i: int, at: int) -> bool {
    0 <= i < words.len() && words[i].0 == at && !known.contains(words[i].1) && (words[i].1.len() > 0
        ==> words[i].1[0] != '(' && words[i].1.last() != ')')
}

proof fn lemma_version(word: Seq<char>)
    ensures
        layer_rules::version_word(word) <==> word.len() > 0 && (word[0] == '(' || word.last()
            == ')'),
{
    reveal_strlit("(");
    reveal_strlit(")");
    if word.len() > 0 {
        assert(word.take(1) =~= seq![word[0]]);
        assert("("@ =~= seq!['(']);
        assert(")"@ =~= seq![')']);
        assert(word.skip(word.len() - 1) =~= seq![word.last()]);
        assert(seq![word[0]][0] == word[0]);
        assert(seq![word.last()][0] == word.last());
    }
}

proof fn lemma_unknown(
    words: Seq<(int, Seq<char>)>,
    k: int,
    name: Seq<char>,
    known: Seq<Seq<char>>,
    rule: usize,
    at: int,
)
    requires
        0 <= k <= words.len(),
    ensures
        conditions::found_at(layer_rules::unknown_from(words, k, name, known), rule, at) <==> rule
            == RULE_LAYER_DEPENDS && exists|i: int|
            k <= i && #[trigger] unknown_word(words, known, i, at),
    decreases words.len() - k,
{
    let all = layer_rules::unknown_from(words, k, name, known);
    if k < words.len() {
        lemma_unknown(words, k + 1, name, known, rule, at);
        lemma_version(words[k].1);
        let rest = layer_rules::unknown_from(words, k + 1, name, known);
        let here = unknown_word(words, known, k, at);
        if !(layer_rules::version_word(words[k].1) || known.contains(words[k].1)) {
            assert(all =~= seq![all[0]] + rest);
            conditions::lemma_found_add(seq![all[0]], rest, rule, at);
            conditions::lemma_found_one(all[0], rule, at);
        }
        if exists|i: int| k <= i && #[trigger] unknown_word(words, known, i, at) {
            let i = choose|i: int| k <= i && #[trigger] unknown_word(words, known, i, at);
            if i > k {
                assert(k + 1 <= i && unknown_word(words, known, i, at));
            }
        }
    } else {
        assert forall|i: int| k <= i implies !(#[trigger] unknown_word(words, known, i, at)) by {}
    }
}

proof fn lemma_depends(
    source: Seq<char>,
    collection: Seq<char>,
    known: Seq<Seq<char>>,
    rule: usize,
    at: int,
)
    ensures
        conditions::found_at(layer_rules::depends_findings(source, collection, known), rule, at) <==> rule
            == RULE_LAYER_DEPENDS && exists|k: int, i: int| #[trigger]
            unknown_dependency(source, "LAYERDEPENDS_"@ + collection, known, k, i, at),
{
    let s = statements::statements_of(source);
    let name = "LAYERDEPENDS_"@ + collection;
    lemma_first(s, name, 0);
    if let Some(a) = layer_rules::first_assignment(s, name, 0) {
        let h = choose|h: int| #[trigger] assigns_first(s, h, name) && s[h]->Assignment_0 == a;
        let words = checks::assigned_words(a);
        lemma_unknown(words, 0, name, known, rule, at);
        if exists|i: int| 0 <= i && #[trigger] unknown_word(words, known, i, at) {
            let i = choose|i: int| 0 <= i && #[trigger] unknown_word(words, known, i, at);
            assert(unknown_dependency(source, name, known, h, i, at));
        }
        if exists|k: int, i: int| #[trigger] unknown_dependency(source, name, known, k, i, at) {
            let (k, i) = choose|k: int, i: int| #[trigger]
                unknown_dependency(source, name, known, k, i, at);
            lemma_one_first(s, name, k, h);
            assert(unknown_word(words, known, i, at));
        }
    } else {
        assert forall|k: int, i: int| !(#[trigger] unknown_dependency(source, name, known, k, i, at)) by {
            if assigns_first(s, k, name) {
                assert(!recipe_conditions::assigns_to(s[k], name));
            }
        }
    }
}

/// What the checks of one collection say.
pub open spec fn collection_speaks(
    source: Seq<char>,
    collection: Seq<char>,
    known: Seq<Seq<char>>,
    rule: usize,
    at: int,
) -> bool {
    ||| rule == RULE_LAYER_PATTERN && needed_missing(source, "BBFILE_PATTERN_"@ + collection, at)
    ||| rule == RULE_LAYER_PRIORITY && priority_wrong(source, "BBFILE_PRIORITY_"@ + collection, at)
    ||| rule == RULE_LAYER_SERIES_COMPAT && needed_missing(
        source,
        "LAYERSERIES_COMPAT_"@ + collection,
        at,
    )
    ||| rule == RULE_LAYER_DEPENDS && exists|k: int, i: int| #[trigger]
        unknown_dependency(source, "LAYERDEPENDS_"@ + collection, known, k, i, at)
}

proof fn lemma_collection(
    source: Seq<char>,
    collection: Seq<char>,
    known: Seq<Seq<char>>,
    rule: usize,
    at: int,
)
    ensures
        conditions::found_at(layer_rules::collection_findings(source, collection, known), rule, at)
            <==> collection_speaks(source, collection, known, rule, at),
{
    let p1 = layer_rules::needed_findings(
        source,
        RULE_LAYER_PATTERN,
        "BBFILE_PATTERN_"@,
        collection,
    );
    let p2 = layer_rules::priority_findings(source, collection);
    let p3 = layer_rules::needed_findings(
        source,
        RULE_LAYER_SERIES_COMPAT,
        "LAYERSERIES_COMPAT_"@,
        collection,
    );
    let p4 = layer_rules::depends_findings(source, collection, known);
    conditions::lemma_found_add(p1 + p2 + p3, p4, rule, at);
    conditions::lemma_found_add(p1 + p2, p3, rule, at);
    conditions::lemma_found_add(p1, p2, rule, at);
    lemma_needed(source, RULE_LAYER_PATTERN, "BBFILE_PATTERN_"@, collection, rule, at);
    lemma_priority(source, collection, rule, at);
    lemma_needed(
        source,
        RULE_LAYER_SERIES_COMPAT,
        "LAYERSERIES_COMPAT_"@,
        collection,
        rule,
        at,
    );
    lemma_depends(source, collection, known, rule, at);
}

proof fn lemma_collections(
    source: Seq<char>,
    names: Seq<Seq<char>>,
    k: int,
    known: Seq<Seq<char>>,
    rule: usize,
    at: int,
)
    requires
        0 <= k <= names.len(),
    ensures
        conditions::found_at(layer_rules::collections_checked(source, names, k, known), rule, at) <==> exists|
            i: int,
        |
            k <= i < names.len() && collection_speaks(source, #[trigger] names[i], known, rule, at),
    decreases names.len() - k,
{
    if k < names.len() {
        lemma_collections(source, names, k + 1, known, rule, at);
        lemma_collection(source, names[k], known, rule, at);
        conditions::lemma_found_add(
            layer_rules::collection_findings(source, names[k], known),
            layer_rules::collections_checked(source, names, k + 1, known),
            rule,
            at,
        );
    }
}

// ---------------------------------------------------------------------------
// Declarations
// ---------------------------------------------------------------------------
/// The words that the statements `s[k..]` declare are those of the statements.
proof fn lemma_declared(s: Seq<StatementView>, k: int, word: (int, Seq<char>))
    requires
        0 <= k <= s.len(),
    ensures
        layer_rules::declared_from(s, k).contains(word) <==> exists|j: int, i: int|
            k <= j && #[trigger] declares_at(s, j, i, word.0, word.1),
    decreases s.len() - k,
{
    let all = layer_rules::declared_from(s, k);
    if k < s.len() {
        lemma_declared(s, k + 1, word);
        let own = declared(s[k]);
        let rest = layer_rules::declared_from(s, k + 1);
        assert(all =~= own + rest);
        if own.contains(word) {
            let i = choose|i: int| 0 <= i < own.len() && own[i] == word;
            assert(all[i] == word);
            assert(declares_at(s, k, i, word.0, word.1));
        }
        if rest.contains(word) {
            let i = choose|i: int| 0 <= i < rest.len() && rest[i] == word;
            assert(all[own.len() + i] == word);
            let (j, h) = choose|j: int, h: int|
                k + 1 <= j && #[trigger] declares_at(s, j, h, word.0, word.1);
            assert(k <= j && declares_at(s, j, h, word.0, word.1));
        }
        if all.contains(word) {
            let i = choose|i: int| 0 <= i < all.len() && all[i] == word;
            if i < own.len() {
                assert(own[i] == word);
            } else {
                assert(rest[i - own.len()] == word);
            }
        }
        if exists|j: int, i: int| k <= j && #[trigger] declares_at(s, j, i, word.0, word.1) {
            let (j, i) = choose|j: int, i: int|
                k <= j && #[trigger] declares_at(s, j, i, word.0, word.1);
            if j == k {
                assert(own[i] == word);
            } else {
                assert(k + 1 <= j && declares_at(s, j, i, word.0, word.1));
            }
        }
    } else {
        assert forall|j: int, i: int| k <= j implies !(#[trigger] declares_at(
            s,
            j,
            i,
            word.0,
            word.1,
        )) by {}
    }
}

proof fn lemma_declared_names(s: Seq<StatementView>, collection: Seq<char>)
    ensures
        layer_rules::declared_names(layer_rules::declared_from(s, 0)).contains(collection)
            <==> declares_collection(s, collection),
{
    let words = layer_rules::declared_from(s, 0);
    let texts = words.map_values(layer_rules::word_text());
    orders::law_sorting_keeps_the_texts(TextOrder::Plain, texts);
    if texts.contains(collection) {
        let i = choose|i: int| 0 <= i < texts.len() && texts[i] == collection;
        let w = words[i];
        assert(words.contains(w));
        lemma_declared(s, 0, w);
        let (k, j) = choose|k: int, j: int| 0 <= k && #[trigger] declares_at(s, k, j, w.0, w.1);
        assert(declares_at(s, k, j, w.0, collection));
    }
    if declares_collection(s, collection) {
        let (k, i, at) = choose|k: int, i: int, at: int| #[trigger]
            declares_at(s, k, i, at, collection);
        lemma_declared(s, 0, (at, collection));
        assert(0 <= k && declares_at(s, k, i, (at, collection).0, (at, collection).1));
        let j = choose|j: int| 0 <= j < words.len() && words[j] == (at, collection);
        assert(texts[j] == collection);
    }
}

proof fn lemma_computed(s: Seq<StatementView>, n: int)
    requires
        0 <= n <= s.len(),
    ensures
        layer_rules::computed_before(s, n) <==> exists|k: int|
            0 <= k < n && computed(#[trigger] s[k]),
    decreases n,
{
    if n > 0 {
        lemma_computed(s, n - 1);
        assert(computed(s[n - 1]) <==> (s[n - 1] matches StatementView::Assignment(a)
            && layer_rules::computes_collections(a)));
        if exists|k: int| 0 <= k < n && computed(#[trigger] s[k]) {
            let k = choose|k: int| 0 <= k < n && computed(#[trigger] s[k]);
            if k < n - 1 {
                assert(0 <= k < n - 1 && computed(s[k]));
            }
        }
    }
}

spec fn word_again(
    words: Seq<(int, Seq<char>)>,
    k: int,
    seen: Seq<Seq<char>>,
    i: int,
    at: int,
) -> bool {
    k <= i < words.len() && words[i].0 == at && (seen.contains(words[i].1)
        || conditions::word_between(words, k, i, words[i].1))
}

proof fn lemma_redeclared(
    words: Seq<(int, Seq<char>)>,
    k: int,
    seen: Seq<Seq<char>>,
    rule: usize,
    at: int,
)
    requires
        0 <= k <= words.len(),
    ensures
        conditions::found_at(layer_rules::redeclared_from(words, k, seen), rule, at) <==> rule
            == RULE_LAYER_COLLECTIONS && exists|i: int| #[trigger]
            word_again(words, k, seen, i, at),
    decreases words.len() - k,
{
    let all = layer_rules::redeclared_from(words, k, seen);
    if k < words.len() {
        let own = words[k].1;
        let again = seen.contains(own);
        let later = if again {
            seen
        } else {
            seen.push(own)
        };
        let rest = layer_rules::redeclared_from(words, k + 1, later);
        lemma_redeclared(words, k + 1, later, rule, at);
        if again {
            assert(all =~= seq![all[0]] + rest);
            conditions::lemma_found_add(seq![all[0]], rest, rule, at);
            conditions::lemma_found_one(all[0], rule, at);
        }
        assert(!conditions::word_between(words, k, k, own));
        assert(word_again(words, k, seen, k, at) <==> again && words[k].0 == at);
        assert forall|i: int| i != k implies (#[trigger] word_again(words, k, seen, i, at)
            <==> word_again(words, k + 1, later, i, at)) by {
            if k < i < words.len() {
                let w = words[i].1;
                conditions::lemma_pushed_contains(seen, own, w);
                assert(conditions::word_between(words, k, i, w) <==> own == w
                    || conditions::word_between(words, k + 1, i, w)) by {
                    if conditions::word_between(words, k, i, w) {
                        let j = choose|j: int| k <= j < i && (#[trigger] words[j]).1 == w;
                        if j > k {
                            assert(k + 1 <= j < i && words[j].1 == w);
                        }
                    }
                }
            }
        }
        if exists|i: int| #[trigger] word_again(words, k, seen, i, at) {
            let i = choose|i: int| #[trigger] word_again(words, k, seen, i, at);
            if i != k {
                assert(word_again(words, k + 1, later, i, at));
            }
        }
        if exists|i: int| #[trigger] word_again(words, k + 1, later, i, at) {
            let i = choose|i: int| #[trigger] word_again(words, k + 1, later, i, at);
            assert(i != k);
            assert(word_again(words, k, seen, i, at));
        }
    }
}

/// Where word `i` of statement `k` stands among all declared words.
spec fn offset(s: Seq<StatementView>, k: int) -> int
    decreases k,
{
    if k <= 0 {
        0
    } else {
        offset(s, k - 1) + declared(s[k - 1]).len()
    }
}

proof fn lemma_offset(s: Seq<StatementView>, k: int)
    requires
        0 <= k <= s.len(),
    ensures
        0 <= offset(s, k) <= layer_rules::declared_from(s, 0).len(),
        layer_rules::declared_from(s, 0).skip(offset(s, k)) == layer_rules::declared_from(s, k),
    decreases k,
{
    let all = layer_rules::declared_from(s, 0);
    if k == 0 {
        assert(all.skip(0) =~= all);
    } else {
        lemma_offset(s, k - 1);
        let own = declared(s[k - 1]);
        let rest = layer_rules::declared_from(s, k);
        assert(layer_rules::declared_from(s, k - 1) =~= own + rest);
        assert(all.skip(offset(s, k)) =~= all.skip(offset(s, k - 1)).skip(own.len() as int));
        assert((own + rest).skip(own.len() as int) =~= rest);
    }
}

proof fn lemma_offset_word(s: Seq<StatementView>, k: int, i: int)
    requires
        0 <= k < s.len(),
        0 <= i < declared(s[k]).len(),
    ensures
        0 <= offset(s, k) + i < offset(s, k + 1) <= layer_rules::declared_from(s, 0).len(),
        layer_rules::declared_from(s, 0)[offset(s, k) + i] == declared(s[k])[i],
{
    lemma_offset(s, k);
    lemma_offset(s, k + 1);
    let all = layer_rules::declared_from(s, 0);
    let own = declared(s[k]);
    let rest = layer_rules::declared_from(s, k + 1);
    assert(layer_rules::declared_from(s, k) =~= own + rest);
    assert(all.skip(offset(s, k))[i] == own[i]);
}

proof fn lemma_offset_grows(s: Seq<StatementView>, j: int, k: int)
    requires
        0 <= j <= k,
    ensures
        offset(s, j) <= offset(s, k),
    decreases k,
{
    if j < k {
        lemma_offset_grows(s, j, k - 1);
    }
}

/// Every declared word is one of a statement.
proof fn lemma_offset_found(s: Seq<StatementView>, m: int, k: int) -> (r: (int, int))
    requires
        0 <= k <= s.len(),
        offset(s, k) <= m < layer_rules::declared_from(s, 0).len(),
    ensures
        k <= r.0 < s.len(),
        0 <= r.1 < declared(s[r.0]).len(),
        offset(s, r.0) + r.1 == m,
    decreases s.len() - k,
{
    lemma_offset(s, k);
    if k == s.len() {
        assert(layer_rules::declared_from(s, k).len() == 0);
        assert(layer_rules::declared_from(s, 0).skip(offset(s, k)).len() == 0);
        (0, 0)
    } else if m < offset(s, k + 1) {
        (k, m - offset(s, k))
    } else {
        lemma_offset_found(s, m, k + 1)
    }
}

proof fn lemma_redeclared_at(s: Seq<StatementView>, at: int)
    ensures
        (exists|i: int| #[trigger]
            word_again(layer_rules::declared_from(s, 0), 0, Seq::empty(), i, at)) <==> exists|
            h: int,
            j: int,
            k: int,
            i: int,
        | #[trigger]
            redeclared_at(s, h, j, k, i, at),
{
    let words = layer_rules::declared_from(s, 0);
    let none = Seq::<Seq<char>>::empty();
    if exists|m: int| #[trigger] word_again(words, 0, none, m, at) {
        let m = choose|m: int| #[trigger] word_again(words, 0, none, m, at);
        let w = words[m].1;
        let l = choose|l: int| 0 <= l < m && (#[trigger] words[l]).1 == w;
        let (k, i) = lemma_offset_found(s, m, 0);
        let (h, j) = lemma_offset_found(s, l, 0);
        lemma_offset_word(s, k, i);
        lemma_offset_word(s, h, j);
        if h > k {
            lemma_offset_grows(s, k + 1, h);
        }
        assert(redeclared_at(s, h, j, k, i, at));
    }
    if exists|h: int, j: int, k: int, i: int| #[trigger] redeclared_at(s, h, j, k, i, at) {
        let (h, j, k, i) = choose|h: int, j: int, k: int, i: int| #[trigger]
            redeclared_at(s, h, j, k, i, at);
        lemma_offset_word(s, k, i);
        lemma_offset_word(s, h, j);
        if h < k {
            lemma_offset_grows(s, h + 1, k);
        }
        let m = offset(s, k) + i;
        let l = offset(s, h) + j;
        assert(0 <= l < m && words[l].1 == words[m].1);
        assert(conditions::word_between(words, 0, m, words[m].1));
        assert(word_again(words, 0, none, m, at));
    }
}

// ---------------------------------------------------------------------------
// The law
// ---------------------------------------------------------------------------
/// When the rules on a layer configuration speak. The one on collections: where
/// a collection is declared again, and at the end of a configuration that
/// declares none and computes none. Those on the pattern, the priority and the
/// compatible series: for each declared collection whose variable is missing,
/// empty, or for the priority no integer. The one on dependencies: at each
/// collection that a declared one depends on and that is not known.
pub proof fn law_layer_rules(source: Seq<char>, known: Seq<Seq<char>>, rule: usize, at: int)
    ensures
        ({
            let s = statements::statements_of(source);
            let found = layer_rules::layer_findings(source, known);
            &&& conditions::found_at(found, RULE_LAYER_COLLECTIONS, at) <==> {
                ||| exists|h: int, j: int, k: int, i: int| #[trigger]
                    redeclared_at(s, h, j, k, i, at)
                ||| at == source.len() && (forall|collection: Seq<char>|
                    !(#[trigger] declares_collection(s, collection))) && forall|k: int|
                    0 <= k < s.len() ==> !computed(#[trigger] s[k])
            }
            &&& rule != RULE_LAYER_COLLECTIONS ==> (conditions::found_at(found, rule, at) <==> exists|
                collection: Seq<char>,
            | #[trigger]
                declares_collection(s, collection) && collection_speaks(
                    source,
                    collection,
                    known,
                    rule,
                    at,
                ))
        }),
{
    lemma_layer(source, known, RULE_LAYER_COLLECTIONS, at);
    lemma_layer(source, known, rule, at);
}

proof fn lemma_layer(source: Seq<char>, known: Seq<Seq<char>>, rule: usize, at: int)
    ensures
        ({
            let s = statements::statements_of(source);
            let found = layer_rules::layer_findings(source, known);
            conditions::found_at(found, rule, at) <==> {
                ||| rule == RULE_LAYER_COLLECTIONS && exists|h: int, j: int, k: int, i: int| #[trigger]
                    redeclared_at(s, h, j, k, i, at)
                ||| rule == RULE_LAYER_COLLECTIONS && at == source.len() && (forall|
                    collection: Seq<char>,
                |
                    !(#[trigger] declares_collection(s, collection))) && forall|k: int|
                    0 <= k < s.len() ==> !computed(#[trigger] s[k])
                ||| rule != RULE_LAYER_COLLECTIONS && exists|collection: Seq<char>| #[trigger]
                    declares_collection(s, collection) && collection_speaks(
                        source,
                        collection,
                        known,
                        rule,
                        at,
                    )
            }
        }),
{
    let s = statements::statements_of(source);
    let words = layer_rules::declared_from(s, 0);
    let names = layer_rules::declared_names(words);
    let none = Seq::<Seq<char>>::empty();
    let first = layer_rules::redeclared_from(words, 0, none);
    lemma_redeclared(words, 0, none, rule, at);
    lemma_redeclared_at(s, at);
    lemma_computed(s, s.len() as int);
    lemma_collections(source, names, 0, known, rule, at);
    let second = if words.len() > 0 {
        layer_rules::collections_checked(source, names, 0, known)
    } else if layer_rules::computed_before(s, s.len() as int) {
        Seq::empty()
    } else {
        seq![
            findings::finding(
                RULE_LAYER_COLLECTIONS,
                source.len() as int,
                source.len() as int,
                "layer is missing a static BBFILE_COLLECTIONS declaration"@,
            ),
        ]
    };
    assert(layer_rules::layer_findings(source, known) == first + second);
    conditions::lemma_found_add(first, second, rule, at);
    conditions::lemma_found_none(rule, at);
    if words.len() > 0 {
        let w = words[0];
        assert(words.contains(w));
        lemma_declared(s, 0, w);
        let (k, i) = choose|k: int, i: int| 0 <= k && #[trigger] declares_at(s, k, i, w.0, w.1);
        assert(declares_collection(s, w.1));
        if exists|i: int|
            0 <= i < names.len() && collection_speaks(source, #[trigger] names[i], known, rule, at) {
            let i = choose|i: int|
                0 <= i < names.len() && collection_speaks(
                    source,
                    #[trigger] names[i],
                    known,
                    rule,
                    at,
                );
            assert(names.contains(names[i]));
            lemma_declared_names(s, names[i]);
        }
        if exists|collection: Seq<char>| #[trigger]
            declares_collection(s, collection) && collection_speaks(
                source,
                collection,
                known,
                rule,
                at,
            ) {
            let collection = choose|collection: Seq<char>| #[trigger]
                declares_collection(s, collection) && collection_speaks(
                    source,
                    collection,
                    known,
                    rule,
                    at,
                );
            lemma_declared_names(s, collection);
            let i = choose|i: int| 0 <= i < names.len() && names[i] == collection;
            assert(collection_speaks(source, names[i], known, rule, at));
        }
    } else {
        assert forall|collection: Seq<char>| !(#[trigger] declares_collection(s, collection)) by {
            if declares_collection(s, collection) {
                let (k, i, p) = choose|k: int, i: int, p: int| #[trigger]
                    declares_at(s, k, i, p, collection);
                lemma_declared(s, 0, (p, collection));
                assert(0 <= k && declares_at(s, k, i, (p, collection).0, (p, collection).1));
            }
        }
        if second.len() > 0 {
            conditions::lemma_found_one(second[0], rule, at);
            assert(second =~= seq![second[0]]);
        }
    }
}

} // verus!
