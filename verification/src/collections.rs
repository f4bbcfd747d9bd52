//! Lists and maps of texts.
use crate::text::append_str;
use crate::text::chars_of;
use crate::text::same_str;
use crate::text::string_of;
use vstd::prelude::*;

verus! {

// ---------------------------------------------------------------------------
// Lists
// ---------------------------------------------------------------------------
/// The contents of a list of character vectors.
pub open spec fn char_texts(items: Seq<Vec<char>>) -> Seq<Seq<char>> {
    items.map_values(|v: Vec<char>| v@)
}

/// The contents of a list of strings.
pub open spec fn string_texts(items: Seq<String>) -> Seq<Seq<char>> {
    items.map_values(|s: String| s@)
}

/// The contents of an optional string.
pub open spec fn optional_text(text: Option<String>) -> Option<Seq<char>> {
    match text {
        Some(text) => Some(text@),
        None => None,
    }
}

/// The contents of a list of string slices.
pub open spec fn str_texts(items: Seq<&str>) -> Seq<Seq<char>> {
    items.map_values(|s: &str| s@)
}

/// A copy of a list of strings.
pub fn copy_strings(items: &Vec<String>) -> (r: Vec<String>)
    ensures
        string_texts(r@) == string_texts(items@),
{
    let mut out: Vec<String> = Vec::new();
    let mut k: usize = 0;
    while k < items.len()
        invariant
            k <= items@.len(),
            out@.len() == k,
            forall|j: int| 0 <= j < k ==> (#[trigger] out@[j])@ == items@[j]@,
        decreases items@.len() - k,
    {
        out.push(items[k].clone());
        k += 1;
    }
    assert(string_texts(out@) =~= string_texts(items@));
    out
}

/// Whether `items` holds `text`.
pub fn has_text(items: &Vec<String>, text: &str) -> (r: bool)
    ensures
        r == string_texts(items@).contains(text@),
{
    let mut k: usize = 0;
    while k < items.len()
        invariant
            k <= items@.len(),
            forall|j: int| 0 <= j < k ==> (#[trigger] items@[j])@ != text@,
        decreases items@.len() - k,
    {
        if same_str(items[k].as_str(), text) {
            assert(string_texts(items@)[k as int] == text@);
            return true;
        }
        k += 1;
    }
    proof {
        if string_texts(items@).contains(text@) {
            let j = choose|j: int|
                0 <= j < string_texts(items@).len() && string_texts(items@)[j] == text@;
            assert(items@[j]@ == text@);
        }
    }
    false
}

/// Whether two lists hold the same texts in the same order.
pub fn same_texts(a: &Vec<String>, b: &Vec<String>) -> (r: bool)
    ensures
        r == (string_texts(a@) == string_texts(b@)),
{
    if a.len() != b.len() {
        assert(string_texts(a@).len() != string_texts(b@).len());
        return false;
    }
    let mut k: usize = 0;
    while k < a.len()
        invariant
            k <= a@.len(),
            a@.len() == b@.len(),
            forall|j: int| 0 <= j < k ==> (#[trigger] a@[j])@ == b@[j]@,
        decreases a@.len() - k,
    {
        if !same_str(a[k].as_str(), b[k].as_str()) {
            assert(string_texts(a@)[k as int] != string_texts(b@)[k as int]);
            return false;
        }
        k += 1;
    }
    assert(string_texts(a@) =~= string_texts(b@));
    true
}

/// Appends a string to a list.
pub fn push_text(items: &mut Vec<String>, text: String)
    ensures
        string_texts(final(items)@) == string_texts(old(items)@).push(text@),
        final(items)@.len() == old(items)@.len() + 1,
{
    let ghost before = items@;
    items.push(text);
    assert(string_texts(items@) =~= string_texts(before).push(text@));
}

/// `items` without the texts that occur earlier in it.
pub open spec fn distinct(items: Seq<Seq<char>>) -> Seq<Seq<char>>
    decreases items.len(),
{
    if items.len() == 0 {
        Seq::empty()
    } else {
        let before = distinct(items.drop_last());
        if before.contains(items.last()) {
            before
        } else {
            before.push(items.last())
        }
    }
}

/// No text occurs twice in `distinct(items)`, and it holds the same texts.
pub proof fn law_distinct_keeps_each_text_once(items: Seq<Seq<char>>)
    ensures
        distinct(items).no_duplicates(),
        forall|t: Seq<char>| distinct(items).contains(t) <==> items.contains(t),
    decreases items.len(),
{
    if items.len() > 0 {
        let rest = items.drop_last();
        law_distinct_keeps_each_text_once(rest);
        let before = distinct(rest);
        let last = items.last();
        assert(items[items.len() - 1] == last);
        assert forall|t: Seq<char>| distinct(items).contains(t) <==> items.contains(t) by {
            if items.contains(t) && t != last {
                let k = choose|k: int| 0 <= k < items.len() && items[k] == t;
                assert(rest[k] == t);
                assert(rest.contains(t));
                let j = choose|j: int| 0 <= j < before.len() && before[j] == t;
                assert(before[j] == t);
                if !before.contains(last) {
                    assert(distinct(items)[j] == t);
                }
            }
            if t == last && !before.contains(last) {
                assert(distinct(items)[before.len() as int] == last);
            }
            if distinct(items).contains(t) {
                let k = choose|k: int| 0 <= k < distinct(items).len() && distinct(items)[k] == t;
                if k < before.len() {
                    assert(before[k] == t);
                    assert(before.contains(t));
                    assert(rest.contains(t));
                    let m = choose|m: int| 0 <= m < rest.len() && rest[m] == t;
                    assert(items[m] == t);
                }
            }
        }
    } else {
        assert forall|t: Seq<char>| distinct(items).contains(t) <==> items.contains(t) by {}
    }
}

/// Appends `text` unless `items` holds it.
pub fn push_distinct(items: &mut Vec<String>, text: String)
    ensures
        string_texts(final(items)@) == (if string_texts(old(items)@).contains(text@) {
            string_texts(old(items)@)
        } else {
            string_texts(old(items)@).push(text@)
        }),
{
    if !has_text(items, text.as_str()) {
        push_text(items, text);
    }
}

/// The texts of `items` with `separator` between them.
pub open spec fn joined(items: Seq<Seq<char>>, separator: Seq<char>) -> Seq<char>
    decreases items.len(),
{
    if items.len() == 0 {
        Seq::empty()
    } else if items.len() == 1 {
        items[0]
    } else {
        joined(items.drop_last(), separator) + separator + items.last()
    }
}

/// The texts of `items` with `separator` between them.
pub fn join(items: &Vec<String>, separator: &str) -> (r: String)
    ensures
        r@ == joined(string_texts(items@), separator@),
{
    let mut out: Vec<char> = Vec::new();
    let ghost texts = string_texts(items@);
    let mut k: usize = 0;
    assert(texts.take(0) =~= Seq::empty());
    assert(out@ =~= joined(texts.take(0), separator@));
    while k < items.len()
        invariant
            k <= items@.len(),
            texts == string_texts(items@),
            out@ == joined(texts.take(k as int), separator@),
        decreases items@.len() - k,
    {
        let ghost before = out@;
        if k > 0 {
            append_str(&mut out, separator);
        }
        append_str(&mut out, items[k].as_str());
        k += 1;
        proof {
            let now = texts.take(k as int);
            assert(now.drop_last() =~= texts.take(k - 1));
            assert(now.last() == items@[k - 1]@);
            if k == 1 {
                assert(out@ =~= items@[0]@) by {
                    assert(before =~= Seq::<char>::empty());
                }
                assert(now[0] == items@[0]@);
            } else {
                assert(out@ =~= before + separator@ + items@[k - 1]@);
            }
        }
    }
    assert(texts.take(k as int) =~= texts);
    string_of(out.as_slice())
}

// ---------------------------------------------------------------------------
// The order of texts
// ---------------------------------------------------------------------------
/// Whether `a` comes before `b` in the order of their code points, which is
/// that of their UTF-8 encodings.
pub open spec fn text_less(a: Seq<char>, b: Seq<char>) -> bool
    decreases a.len(),
{
    if b.len() == 0 {
        false
    } else if a.len() == 0 {
        true
    } else if a[0] != b[0] {
        a[0] < b[0]
    } else {
        text_less(a.drop_first(), b.drop_first())
    }
}

pub proof fn lemma_text_less_irreflexive(a: Seq<char>)
    ensures
        !text_less(a, a),
    decreases a.len(),
{
    if a.len() > 0 {
        lemma_text_less_irreflexive(a.drop_first());
    }
}

pub proof fn lemma_text_less_transitive(a: Seq<char>, b: Seq<char>, c: Seq<char>)
    requires
        text_less(a, b),
        text_less(b, c),
    ensures
        text_less(a, c),
    decreases a.len(),
{
    if a.len() > 0 && a[0] == b[0] && b[0] == c[0] {
        lemma_text_less_transitive(a.drop_first(), b.drop_first(), c.drop_first());
    }
}

pub proof fn lemma_text_less_total(a: Seq<char>, b: Seq<char>)
    ensures
        a == b || text_less(a, b) || text_less(b, a),
    decreases a.len(),
{
    if a.len() == 0 || b.len() == 0 {
        if a.len() == b.len() {
            assert(a =~= b);
        }
    } else if a[0] == b[0] {
        lemma_text_less_total(a.drop_first(), b.drop_first());
        if a.drop_first() == b.drop_first() {
            assert(a =~= seq![a[0]] + a.drop_first());
            assert(b =~= seq![b[0]] + b.drop_first());
        }
    }
}

/// Whether `a` comes before `b`.
pub fn is_text_less(a: &[char], b: &[char]) -> (r: bool)
    ensures
        r == text_less(a@, b@),
{
    let mut k: usize = 0;
    assert(a@.skip(0) =~= a@);
    assert(b@.skip(0) =~= b@);
    while k < a.len() && k < b.len()
        invariant
            k <= a@.len(),
            k <= b@.len(),
            text_less(a@, b@) == text_less(a@.skip(k as int), b@.skip(k as int)),
        decreases a@.len() - k,
    {
        assert(a@.skip(k as int)[0] == a@[k as int]);
        assert(b@.skip(k as int)[0] == b@[k as int]);
        if a[k] != b[k] {
            return a[k] < b[k];
        }
        assert(a@.skip(k as int).drop_first() =~= a@.skip(k + 1));
        assert(b@.skip(k as int).drop_first() =~= b@.skip(k + 1));
        k += 1;
    }
    k < b.len()
}

/// Whether `a` comes before `b`.
pub fn is_str_less(a: &str, b: &str) -> (r: bool)
    ensures
        r == text_less(a@, b@),
{
    let a = chars_of(a);
    let b = chars_of(b);
    is_text_less(a.as_slice(), b.as_slice())
}

// ---------------------------------------------------------------------------
// Maps
// ---------------------------------------------------------------------------
/// A map from texts to texts, in the order of its keys.
#[derive(Clone, Debug, Eq, PartialEq)]
pub struct TextMap {
    entries: Vec<(String, String)>,
}

/// The map that a list of pairs describes, where no key occurs twice.
pub open spec fn pairs_map(pairs: Seq<(Seq<char>, Seq<char>)>) -> Map<Seq<char>, Seq<char>>
    decreases pairs.len(),
{
    if pairs.len() == 0 {
        Map::empty()
    } else {
        pairs_map(pairs.drop_last()).insert(pairs.last().0, pairs.last().1)
    }
}

/// The keys of `pairs` are in strictly increasing order.
pub open spec fn keys_increase(pairs: Seq<(Seq<char>, Seq<char>)>) -> bool {
    forall|i: int, j: int|
        0 <= i < j < pairs.len() ==> text_less((#[trigger] pairs[i]).0, (#[trigger] pairs[j]).0)
}

/// The contents of a list of pairs of strings.
pub open spec fn pair_texts(entries: Seq<(String, String)>) -> Seq<(Seq<char>, Seq<char>)> {
    entries.map_values(|e: (String, String)| (e.0@, e.1@))
}

/// The first position from `k` whose key does not come before `key`.
pub open spec fn pair_place(pairs: Seq<(Seq<char>, Seq<char>)>, key: Seq<char>, k: int) -> int
    decreases pairs.len() - k,
{
    if k < 0 || k >= pairs.len() {
        pairs.len() as int
    } else if text_less(pairs[k].0, key) {
        pair_place(pairs, key, k + 1)
    } else {
        k
    }
}

/// A sorted list of pairs that gives `key` the value `value`.
pub open spec fn pairs_insert(
    pairs: Seq<(Seq<char>, Seq<char>)>,
    key: Seq<char>,
    value: Seq<char>,
) -> Seq<(Seq<char>, Seq<char>)> {
    let k = pair_place(pairs, key, 0);
    if k < pairs.len() && pairs[k].0 == key {
        pairs.update(k, (key, value))
    } else {
        pairs.insert(k, (key, value))
    }
}

proof fn lemma_pair_place(pairs: Seq<(Seq<char>, Seq<char>)>, key: Seq<char>, k: int, r: int)
    requires
        0 <= k <= r <= pairs.len(),
        forall|j: int| k <= j < r ==> text_less((#[trigger] pairs[j]).0, key),
        r < pairs.len() ==> !text_less(pairs[r].0, key),
    ensures
        pair_place(pairs, key, k) == r,
    decreases r - k,
{
    if k < r {
        lemma_pair_place(pairs, key, k + 1, r);
    }
}

proof fn lemma_pairs_map(pairs: Seq<(Seq<char>, Seq<char>)>)
    requires
        keys_increase(pairs),
    ensures
        forall|k: int|
            0 <= k < pairs.len() ==> pairs_map(pairs).dom().contains((#[trigger] pairs[k]).0)
                && pairs_map(pairs)[pairs[k].0] == pairs[k].1,
        forall|key: Seq<char>| #[trigger]
            pairs_map(pairs).dom().contains(key) ==> exists|k: int|
                0 <= k < pairs.len() && (#[trigger] pairs[k]).0 == key,
    decreases pairs.len(),
{
    if pairs.len() > 0 {
        let rest = pairs.drop_last();
        assert(keys_increase(rest));
        lemma_pairs_map(rest);
        let last = pairs.last();
        assert forall|k: int| 0 <= k < pairs.len() implies pairs_map(pairs).dom().contains(
            (#[trigger] pairs[k]).0,
        ) && pairs_map(pairs)[pairs[k].0] == pairs[k].1 by {
            if k < pairs.len() - 1 {
                assert(rest[k] == pairs[k]);
                assert(text_less(pairs[k].0, pairs[pairs.len() - 1].0));
                lemma_text_less_irreflexive(last.0);
            }
        }
        assert forall|key: Seq<char>| #[trigger]
            pairs_map(pairs).dom().contains(key) implies exists|k: int|
            0 <= k < pairs.len() && (#[trigger] pairs[k]).0 == key by {
            if key == last.0 {
                assert(pairs[pairs.len() - 1].0 == key);
            } else {
                assert(pairs_map(rest).dom().contains(key));
                let k = choose|k: int| 0 <= k < rest.len() && (#[trigger] rest[k]).0 == key;
                assert(pairs[k].0 == key);
            }
        }
    }
}

impl TextMap {
    pub closed spec fn pairs(self) -> Seq<(Seq<char>, Seq<char>)> {
        pair_texts(self.entries@)
    }

    pub open spec fn map(self) -> Map<Seq<char>, Seq<char>> {
        pairs_map(self.pairs())
    }

    pub open spec fn wf(self) -> bool {
        keys_increase(self.pairs())
    }

    /// The empty map.
    pub fn new() -> (r: TextMap)
        ensures
            r.wf(),
            r.map() == Map::<Seq<char>, Seq<char>>::empty(),
            r.pairs() == Seq::<(Seq<char>, Seq<char>)>::empty(),
    {
        let r = TextMap { entries: Vec::new() };
        assert(r.pairs() =~= Seq::empty());
        r
    }

    /// The number of keys before `key`.
    fn position(&self, key: &str) -> (r: usize)
        requires
            self.wf(),
        ensures
            r <= self.entries@.len(),
            forall|k: int|
                0 <= k < r ==> text_less((#[trigger] self.pairs()[k]).0, key@),
            forall|k: int|
                r <= k < self.entries@.len() ==> !text_less((#[trigger] self.pairs()[k]).0, key@),
    {
        let mut k: usize = 0;
        while k < self.entries.len() && is_str_less(self.entries[k].0.as_str(), key)
            invariant
                k <= self.entries@.len(),
                forall|j: int| 0 <= j < k ==> text_less((#[trigger] self.pairs()[j]).0, key@),
            decreases self.entries@.len() - k,
        {
            assert(self.pairs()[k as int].0 == self.entries@[k as int].0@);
            k += 1;
        }
        proof {
            if k < self.entries@.len() {
                assert(self.pairs()[k as int].0 == self.entries@[k as int].0@);
                assert forall|j: int| k <= j < self.entries@.len() implies !text_less(
                    (#[trigger] self.pairs()[j]).0,
                    key@,
                ) by {
                    if j > k && text_less(self.pairs()[j].0, key@) {
                        assert(text_less(self.pairs()[k as int].0, self.pairs()[j].0));
                        lemma_text_less_transitive(
                            self.pairs()[k as int].0,
                            self.pairs()[j].0,
                            key@,
                        );
                    }
                }
            }
        }
        k
    }

    /// The value of `key`.
    pub fn get(&self, key: &str) -> (r: Option<&str>)
        requires
            self.wf(),
        ensures
            match r {
                Some(value) => self.map().dom().contains(key@) && self.map()[key@] == value@,
                None => !self.map().dom().contains(key@),
            },
    {
        let k = self.position(key);
        proof {
            lemma_pairs_map(self.pairs());
        }
        if k < self.entries.len() && same_str(self.entries[k].0.as_str(), key) {
            assert(self.pairs()[k as int].0 == key@);
            return Some(self.entries[k].1.as_str());
        }
        proof {
            if self.map().dom().contains(key@) {
                let j = choose|j: int|
                    0 <= j < self.pairs().len() && (#[trigger] self.pairs()[j]).0 == key@;
                lemma_text_less_irreflexive(key@);
                assert(k <= j);
                if j > k {
                    assert(text_less(self.pairs()[k as int].0, self.pairs()[j].0));
                }
                assert(self.pairs()[k as int].0 == self.entries@[k as int].0@);
            }
        }
        None
    }

    /// Gives `key` the value `value`.
    pub fn insert(&mut self, key: String, value: String)
        requires
            old(self).wf(),
        ensures
            final(self).wf(),
            final(self).map() == old(self).map().insert(key@, value@),
            final(self).pairs() == pairs_insert(old(self).pairs(), key@, value@),
    {
        let k = self.position(key.as_str());
        let ghost before = self.pairs();
        let ghost key_text = key@;
        let ghost value_text = value@;
        let replace = k < self.entries.len() && same_str(
            self.entries[k].0.as_str(),
            key.as_str(),
        );
        proof {
            lemma_pairs_map(before);
            lemma_pair_place(before, key_text, 0, k as int);
            if k < before.len() {
                assert(before[k as int].0 == self.entries@[k as int].0@);
            }
        }
        if replace {
            let _ = self.entries.remove(k);
            self.entries.insert(k, (key, value));
            proof {
                let now = self.pairs();
                assert(before[k as int].0 == key_text);
                assert(now =~= before.update(k as int, (key_text, value_text)));
                assert forall|i: int, j: int| 0 <= i < j < now.len() implies text_less(
                    (#[trigger] now[i]).0,
                    (#[trigger] now[j]).0,
                ) by {
                    assert(text_less(before[i].0, before[j].0));
                }
                lemma_pairs_map(now);
                assert(pairs_map(now) =~= pairs_map(before).insert(key_text, value_text)) by {
                    assert forall|x: Seq<char>|
                        pairs_map(now).dom().contains(x) <==> pairs_map(before).insert(
                            key_text,
                            value_text,
                        ).dom().contains(x) by {
                        if pairs_map(now).dom().contains(x) {
                            let i = choose|i: int|
                                0 <= i < now.len() && (#[trigger] now[i]).0 == x;
                            assert(before[i].0 == x);
                        }
                        if pairs_map(before).dom().contains(x) {
                            let i = choose|i: int|
                                0 <= i < before.len() && (#[trigger] before[i]).0 == x;
                            assert(now[i].0 == x);
                        }
                        assert(now[k as int].0 == key_text);
                    }
                    assert forall|x: Seq<char>| pairs_map(now).dom().contains(x) implies
                        #[trigger] pairs_map(now)[x] == pairs_map(before).insert(
                        key_text,
                        value_text,
                    )[x] by {
                        let i = choose|i: int| 0 <= i < now.len() && (#[trigger] now[i]).0 == x;
                        assert(before[i].0 == x);
                        if i == k {
                            assert(now[i].1 == value_text);
                        } else {
                            if x == key_text {
                                lemma_text_less_irreflexive(x);
                                if i < k {
                                    assert(text_less(before[i].0, before[k as int].0));
                                } else {
                                    assert(text_less(before[k as int].0, before[i].0));
                                }
                            }
                            assert(now[i].1 == before[i].1);
                        }
                    }
                }
            }
        } else {
            self.entries.insert(k, (key, value));
            proof {
                let now = self.pairs();
                assert(now =~= before.insert(k as int, (key_text, value_text)));
                assert forall|i: int| k <= i < before.len() implies text_less(
                    key_text,
                    (#[trigger] before[i]).0,
                ) by {
                    lemma_text_less_total(before[i].0, key_text);
                    if i > k {
                        assert(text_less(before[k as int].0, before[i].0));
                    }
                }
                assert forall|i: int, j: int| 0 <= i < j < now.len() implies text_less(
                    (#[trigger] now[i]).0,
                    (#[trigger] now[j]).0,
                ) by {
                    if j < k {
                        assert(text_less(before[i].0, before[j].0));
                    } else if j == k {
                        assert(text_less(before[i].0, key_text));
                    } else if i < k {
                        assert(text_less(before[i].0, before[j - 1].0));
                    } else if i == k {
                        assert(text_less(key_text, before[j - 1].0));
                    } else {
                        assert(text_less(before[i - 1].0, before[j - 1].0));
                    }
                }
                lemma_pairs_map(now);
                assert(pairs_map(now) =~= pairs_map(before).insert(key_text, value_text)) by {
                    assert forall|x: Seq<char>|
                        pairs_map(now).dom().contains(x) <==> pairs_map(before).insert(
                            key_text,
                            value_text,
                        ).dom().contains(x) by {
                        if pairs_map(now).dom().contains(x) {
                            let i = choose|i: int|
                                0 <= i < now.len() && (#[trigger] now[i]).0 == x;
                            if i < k {
                                assert(before[i].0 == x);
                            } else if i > k {
                                assert(before[i - 1].0 == x);
                            }
                        }
                        if pairs_map(before).dom().contains(x) {
                            let i = choose|i: int|
                                0 <= i < before.len() && (#[trigger] before[i]).0 == x;
                            if i < k {
                                assert(now[i].0 == x);
                            } else {
                                assert(now[i + 1].0 == x);
                            }
                        }
                        assert(now[k as int].0 == key_text);
                    }
                    assert forall|x: Seq<char>| pairs_map(now).dom().contains(x) implies
                        #[trigger] pairs_map(now)[x] == pairs_map(before).insert(
                        key_text,
                        value_text,
                    )[x] by {
                        let i = choose|i: int| 0 <= i < now.len() && (#[trigger] now[i]).0 == x;
                        if i == k {
                            assert(now[i].1 == value_text);
                        } else {
                            lemma_text_less_irreflexive(x);
                            if i < k {
                                assert(before[i].0 == x && text_less(x, key_text));
                                assert(now[i].1 == before[i].1);
                            } else {
                                assert(before[i - 1].0 == x && text_less(key_text, x));
                                assert(now[i].1 == before[i - 1].1);
                            }
                        }
                    }
                }
            }
        }
    }

    /// Whether two maps hold the same pairs.
    pub fn same(&self, other: &TextMap) -> (r: bool)
        requires
            self.wf(),
            other.wf(),
        ensures
            r == (self.map() == other.map()),
    {
        proof {
            lemma_pairs_map(self.pairs());
            lemma_pairs_map(other.pairs());
        }
        if !self.part_of(other) || !other.part_of(self) {
            return false;
        }
        assert(self.map() =~= other.map());
        true
    }

    fn part_of(&self, other: &TextMap) -> (r: bool)
        requires
            self.wf(),
            other.wf(),
        ensures
            r == (forall|x: Seq<char>| #[trigger]
                self.map().dom().contains(x) ==> other.map().dom().contains(x) && other.map()[x]
                    == self.map()[x]),
    {
        proof {
            lemma_pairs_map(self.pairs());
        }
        let mut k: usize = 0;
        while k < self.entries.len()
            invariant
                k <= self.entries@.len(),
                self.wf(),
                other.wf(),
                forall|j: int|
                    0 <= j < self.pairs().len() ==> self.map().dom().contains(
                        (#[trigger] self.pairs()[j]).0,
                    ) && self.map()[self.pairs()[j].0] == self.pairs()[j].1,
                forall|j: int|
                    0 <= j < k ==> other.map().dom().contains((#[trigger] self.pairs()[j]).0)
                        && other.map()[self.pairs()[j].0] == self.pairs()[j].1,
            decreases self.entries@.len() - k,
        {
            assert(self.pairs()[k as int].0 == self.entries@[k as int].0@);
            assert(self.pairs()[k as int].1 == self.entries@[k as int].1@);
            match other.get(self.entries[k].0.as_str()) {
                Some(value) => {
                    if !same_str(value, self.entries[k].1.as_str()) {
                        assert(self.map().dom().contains(self.pairs()[k as int].0));
                        return false;
                    }
                },
                None => {
                    assert(self.map().dom().contains(self.pairs()[k as int].0));
                    return false;
                },
            }
            k += 1;
        }
        proof {
            assert forall|x: Seq<char>| #[trigger] self.map().dom().contains(x) implies other.map()
                .dom().contains(x) && other.map()[x] == self.map()[x] by {
                let j = choose|j: int|
                    0 <= j < self.pairs().len() && (#[trigger] self.pairs()[j]).0 == x;
                assert(self.pairs()[j].0 == x);
            }
        }
        true
    }

    /// The number of keys.
    pub fn len(&self) -> (r: usize)
        ensures
            r == self.pairs().len(),
    {
        self.entries.len()
    }

    /// The pairs in the order of their keys.
    pub fn entries(&self) -> (r: &Vec<(String, String)>)
        ensures
            pair_texts(r@) == self.pairs(),
    {
        &self.entries
    }
}

} // verus!
