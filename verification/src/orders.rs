//! Sorted lists of texts.
use crate::collections;
use crate::paths;
use crate::collections::is_str_less;
use crate::paths::is_path_less;
use crate::text::same_str;
use vstd::prelude::*;

verus! {

/// An order of texts.
#[derive(Clone, Copy, Debug, Eq, PartialEq, Structural)]
pub enum TextOrder {
    /// By code points.
    Plain,
    /// As paths, by components.
    Path,
}

/// Whether `a` comes before `b`.
pub open spec fn comes_before(order: TextOrder, a: Seq<char>, b: Seq<char>) -> bool {
    match order {
        TextOrder::Plain => collections::text_less(a, b),
        TextOrder::Path => paths::path_less(a, b),
    }
}

pub proof fn lemma_before_transitive(order: TextOrder, a: Seq<char>, b: Seq<char>, c: Seq<char>)
    requires
        comes_before(order, a, b),
        comes_before(order, b, c),
    ensures
        comes_before(order, a, c),
{
    match order {
        TextOrder::Plain => collections::lemma_text_less_transitive(a, b, c),
        TextOrder::Path => paths::lemma_path_less_transitive(a, b, c),
    }
}

pub proof fn lemma_before_total(order: TextOrder, a: Seq<char>, b: Seq<char>)
    ensures
        a == b || comes_before(order, a, b) || comes_before(order, b, a),
{
    match order {
        TextOrder::Plain => collections::lemma_text_less_total(a, b),
        TextOrder::Path => paths::lemma_path_less_total(a, b),
    }
}

/// Whether `a` comes before `b`.
pub fn is_before(order: TextOrder, a: &str, b: &str) -> (r: bool)
    ensures
        r == comes_before(order, a@, b@),
{
    match order {
        TextOrder::Plain => is_str_less(a, b),
        TextOrder::Path => is_path_less(a, b),
    }
}

/// The first position from `k` whose text does not come before `x`.
pub open spec fn place_from(order: TextOrder, items: Seq<Seq<char>>, x: Seq<char>, k: int) -> int
    decreases items.len() - k,
{
    if k < 0 || k >= items.len() {
        items.len() as int
    } else if comes_before(order, items[k], x) {
        place_from(order, items, x, k + 1)
    } else {
        k
    }
}

/// A sorted list with `x`.
pub open spec fn sorted_insert(order: TextOrder, items: Seq<Seq<char>>, x: Seq<char>) -> Seq<
    Seq<char>,
> {
    let p = place_from(order, items, x, 0);
    if p < items.len() && items[p] == x {
        items
    } else {
        items.insert(p, x)
    }
}

/// The texts of a list in order, each once.
pub open spec fn sorted_distinct(order: TextOrder, items: Seq<Seq<char>>) -> Seq<Seq<char>>
    decreases items.len(),
{
    if items.len() == 0 {
        Seq::empty()
    } else {
        sorted_insert(order, sorted_distinct(order, items.drop_last()), items.last())
    }
}

/// The texts are in strictly increasing order.
pub open spec fn strictly_sorted(order: TextOrder, items: Seq<Seq<char>>) -> bool {
    forall|i: int, j: int|
        0 <= i < j < items.len() ==> comes_before(order, #[trigger] items[i], #[trigger] items[j])
}

pub proof fn lemma_place(order: TextOrder, items: Seq<Seq<char>>, x: Seq<char>, k: int)
    requires
        0 <= k <= items.len(),
    ensures
        k <= place_from(order, items, x, k) <= items.len(),
        forall|i: int|
            k <= i < place_from(order, items, x, k) ==> comes_before(order, #[trigger] items[i], x),
        place_from(order, items, x, k) < items.len() ==> !comes_before(
            order,
            items[place_from(order, items, x, k)],
            x,
        ),
    decreases items.len() - k,
{
    if k < items.len() && comes_before(order, items[k], x) {
        lemma_place(order, items, x, k + 1);
    }
}

pub proof fn lemma_sorted_insert(order: TextOrder, items: Seq<Seq<char>>, x: Seq<char>)
    requires
        strictly_sorted(order, items),
    ensures
        strictly_sorted(order, sorted_insert(order, items, x)),
        forall|t: Seq<char>| #[trigger]
            sorted_insert(order, items, x).contains(t) <==> items.contains(t) || t == x,
{
    let p = place_from(order, items, x, 0);
    lemma_place(order, items, x, 0);
    let out = sorted_insert(order, items, x);
    if p < items.len() && items[p] == x {
        assert(items.contains(x));
    } else {
        assert forall|i: int| p <= i < items.len() implies comes_before(
            order,
            x,
            #[trigger] items[i],
        ) by {
            lemma_before_total(order, items[p], x);
            if i > p {
                lemma_before_transitive(order, x, items[p], items[i]);
            }
        }
        assert forall|i: int, j: int| 0 <= i < j < out.len() implies comes_before(
            order,
            #[trigger] out[i],
            #[trigger] out[j],
        ) by {
            if j < p {
                assert(comes_before(order, items[i], items[j]));
            } else if j == p {
                assert(comes_before(order, items[i], x));
            } else if i < p {
                assert(comes_before(order, items[i], items[j - 1]));
            } else if i == p {
                assert(comes_before(order, x, items[j - 1]));
            } else {
                assert(comes_before(order, items[i - 1], items[j - 1]));
            }
        }
        assert forall|t: Seq<char>| #[trigger] out.contains(t) <==> items.contains(t) || t == x by {
            if out.contains(t) {
                let i = choose|i: int| 0 <= i < out.len() && out[i] == t;
                if i < p {
                    assert(items[i] == t);
                } else if i > p {
                    assert(items[i - 1] == t);
                }
            }
            if items.contains(t) {
                let i = choose|i: int| 0 <= i < items.len() && items[i] == t;
                if i < p {
                    assert(out[i] == t);
                } else {
                    assert(out[i + 1] == t);
                }
            }
            assert(out[p] == x);
        }
    }
}

/// A sorted list is in strictly increasing order and holds the same texts.
pub proof fn law_sorting_keeps_the_texts(order: TextOrder, items: Seq<Seq<char>>)
    ensures
        strictly_sorted(order, sorted_distinct(order, items)),
        forall|t: Seq<char>| #[trigger]
            sorted_distinct(order, items).contains(t) <==> items.contains(t),
    decreases items.len(),
{
    if items.len() > 0 {
        let rest = items.drop_last();
        law_sorting_keeps_the_texts(order, rest);
        lemma_sorted_insert(order, sorted_distinct(order, rest), items.last());
        assert forall|t: Seq<char>| #[trigger]
            sorted_distinct(order, items).contains(t) <==> items.contains(t) by {
            if items.contains(t) && t != items.last() {
                let i = choose|i: int| 0 <= i < items.len() && items[i] == t;
                assert(rest[i] == t);
            }
            if rest.contains(t) {
                let i = choose|i: int| 0 <= i < rest.len() && rest[i] == t;
                assert(items[i] == t);
            }
            assert(items[items.len() - 1] == items.last());
        }
    }
}

/// Adds `text` to a sorted list, unless the list holds it.
pub fn insert_sorted(order: TextOrder, items: &mut Vec<String>, text: String)
    ensures
        collections::string_texts(final(items)@) == sorted_insert(order, collections::string_texts(old(items)@), text@),
{
    let ghost all = collections::string_texts(items@);
    let mut k: usize = 0;
    while k < items.len() && is_before(order, items[k].as_str(), text.as_str())
        invariant
            k <= items@.len(),
            all == collections::string_texts(items@),
            place_from(order, all, text@, 0) == place_from(order, all, text@, k as int),
        decreases items@.len() - k,
    {
        assert(all[k as int] == items@[k as int]@);
        k += 1;
    }
    if k < items.len() {
        assert(all[k as int] == items@[k as int]@);
        if same_str(items[k].as_str(), text.as_str()) {
            return;
        }
    }
    let ghost value = text@;
    items.insert(k, text);
    assert(collections::string_texts(items@) =~= all.insert(k as int, value));
}

/// The texts of a list in order, each once.
pub fn sort_distinct(order: TextOrder, items: &Vec<String>) -> (r: Vec<String>)
    ensures
        collections::string_texts(r@) == sorted_distinct(order, collections::string_texts(items@)),
{
    let ghost all = collections::string_texts(items@);
    let mut out: Vec<String> = Vec::new();
    let mut k: usize = 0;
    assert(all.take(0) =~= Seq::empty());
    assert(collections::string_texts(out@) =~= Seq::empty());
    while k < items.len()
        invariant
            k <= items@.len(),
            all == collections::string_texts(items@),
            collections::string_texts(out@) == sorted_distinct(order, all.take(k as int)),
        decreases items@.len() - k,
    {
        insert_sorted(order, &mut out, items[k].clone());
        k += 1;
        assert(all.take(k as int).drop_last() =~= all.take(k - 1));
        assert(all.take(k as int).last() == items@[k - 1]@);
    }
    assert(all.take(k as int) =~= all);
    out
}

} // verus!
