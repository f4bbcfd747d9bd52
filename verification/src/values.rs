//! What the names and values of metadata say.
use crate::collections;
use crate::text;
use crate::collections::has_text;
use crate::collections::push_text;
use crate::text::CharClass;
use crate::text::chars_of;
use crate::text::contains_char;
use crate::text::copy_chars;
use crate::text::find_char;
use crate::text::lead_index;
use crate::text::same_chars;
use crate::text::same_str;
use crate::text::split_words;
use crate::text::starts_with;
use crate::text::string_of;
use crate::text::trim;
use vstd::prelude::*;
use vstd::slice::slice_subrange;

verus! {

// ---------------------------------------------------------------------------
// Texts
// ---------------------------------------------------------------------------
/// The ranges of `t[i..]` that lie between the separators `c`.
pub open spec fn pieces_from(t: Seq<char>, c: char, i: int) -> Seq<(int, int)>
    decreases t.len() - i,
{
    let e = text::find_from(t, c, i);
    if 0 <= i <= e < t.len() {
        seq![(i, e)] + pieces_from(t, c, e + 1)
    } else {
        seq![(i, t.len() as int)]
    }
}

/// The ranges between the separators `c` of a text.
pub open spec fn pieces_of(t: Seq<char>, c: char) -> Seq<(int, int)> {
    pieces_from(t, c, 0)
}

/// The texts between the separators `c` of a text.
pub open spec fn pieces(t: Seq<char>, c: char) -> Seq<Seq<char>> {
    pieces_of(t, c).map_values(|p: (int, int)| t.subrange(p.0, p.1))
}

/// The ranges of a list lie in a text of `n` characters.
pub open spec fn pieces_inside(ranges: Seq<(usize, usize)>, n: int) -> bool {
    forall|k: int| 0 <= k < ranges.len() ==> (#[trigger] ranges[k]).0 <= ranges[k].1 <= n
}

/// The ranges between the separators `c` of a text.
pub fn split_pieces(t: &[char], c: char) -> (r: Vec<(usize, usize)>)
    ensures
        text::ranges_match(r@, pieces_of(t@, c)),
        pieces_inside(r@, t@.len() as int),
        r@.len() > 0,
{
    let mut out: Vec<(usize, usize)> = Vec::new();
    let mut i: usize = 0;
    let ghost mut found: Seq<(int, int)> = Seq::empty();
    assert(Seq::<(int, int)>::empty() + pieces_from(t@, c, 0) =~= pieces_of(t@, c));
    loop
        invariant
            i <= t@.len(),
            text::ranges_match(out@, found),
            pieces_inside(out@, t@.len() as int),
            found + pieces_from(t@, c, i as int) == pieces_of(t@, c),
        decreases t@.len() - i,
    {
        let e = find_char(t, c, i);
        out.push((i, e));
        if e == t.len() {
            assert(found.push((i as int, e as int)) =~= found + seq![(i as int, t@.len() as int)]);
            return out;
        }
        proof {
            assert(found.push((i as int, e as int)) + pieces_from(t@, c, e + 1) =~= found + (seq![
                (i as int, e as int),
            ] + pieces_from(t@, c, e + 1)));
            found = found.push((i as int, e as int));
        }
        i = e + 1;
    }
}

/// The text before the first `c` of a text, or the whole of it.
pub open spec fn first_piece(t: Seq<char>, c: char) -> Seq<char> {
    t.take(text::find_from(t, c, 0))
}

/// Whether `t` holds one of two characters.
pub open spec fn holds_either(t: Seq<char>, a: char, b: char) -> bool {
    t.contains(a) || t.contains(b)
}

// ---------------------------------------------------------------------------
// Values
// ---------------------------------------------------------------------------
/// The position of the quote that closes a value which opened before `i`.
pub open spec fn close_from(t: Seq<char>, i: int, quote: char, escaped: bool) -> int
    decreases t.len() - i,
{
    if i < 0 || i >= t.len() {
        t.len() as int
    } else if escaped {
        close_from(t, i + 1, quote, false)
    } else if t[i] == '\\' {
        close_from(t, i + 1, quote, true)
    } else if t[i] == quote {
        i
    } else {
        close_from(t, i + 1, quote, false)
    }
}

pub open spec fn is_quote(c: char) -> bool {
    c == '\'' || c == '"'
}

/// The text between the quotes of a value that is one quoted text, by its
/// range in the value. A comment may follow.
pub open spec fn simple_quoted(value: Seq<char>) -> Option<(int, int)> {
    let lead = text::lead_from(value, CharClass::Indent, 0);
    let close = close_from(value, lead + 1, value[lead], false);
    let rest = text::trimmed(value.skip(close + 1), CharClass::Whitespace);
    if lead < value.len() && is_quote(value[lead]) && close < value.len() && (rest.len() == 0
        || rest[0] == '#') {
        Some((lead + 1, close))
    } else {
        None
    }
}

/// The text between the quotes of a value that is one quoted text.
pub open spec fn quoted_text(value: Seq<char>) -> Option<Seq<char>> {
    match simple_quoted(value) {
        Some((a, b)) => Some(value.subrange(a, b)),
        None => None,
    }
}

/// The text between the quotes of a value that is one quoted text, by its
/// range in the value.
pub fn simple_quoted_value(value: &[char]) -> (r: Option<(usize, usize)>)
    ensures
        match r {
            Some((a, b)) => simple_quoted(value@) == Some((a as int, b as int)) && 0 < a <= b
                < value@.len(),
            None => simple_quoted(value@) is None,
        },
{
    let lead = lead_index(value, CharClass::Indent, 0);
    if lead >= value.len() {
        return None;
    }
    let quote = value[lead];
    if quote != '\'' && quote != '"' {
        return None;
    }
    let mut escaped = false;
    let mut i: usize = lead + 1;
    while i < value.len() && (escaped || value[i] != quote)
        invariant
            lead < i <= value@.len(),
            quote == '\'' || quote == '"',
            close_from(value@, lead + 1, quote, false) == close_from(
                value@,
                i as int,
                quote,
                escaped,
            ),
        decreases value@.len() - i,
    {
        escaped = !escaped && value[i] == '\\';
        i += 1;
    }
    if i >= value.len() {
        return None;
    }
    assert(value@.subrange(i + 1, value@.len() as int) =~= value@.skip(i + 1));
    let rest = trim(slice_subrange(value, i + 1, value.len()), CharClass::Whitespace);
    if rest.len() == 0 || rest[0] == '#' {
        Some((lead + 1, i))
    } else {
        None
    }
}

/// The value of an assignment without its quotes, or without its comment
/// where it has no quotes.
pub open spec fn scalar(value: Seq<char>) -> Option<Seq<char>> {
    let text = text::trimmed(value, CharClass::Whitespace);
    if text.len() > 0 && is_quote(text[0]) {
        quoted_text(text)
    } else {
        Some(text::trimmed(first_piece(text, '#'), CharClass::Whitespace))
    }
}

/// The value of an assignment without its quotes, or without its comment
/// where it has no quotes.
pub fn scalar_value(value: &[char]) -> (r: Option<Vec<char>>)
    ensures
        match r {
            Some(text) => scalar(value@) == Some(text@),
            None => scalar(value@) is None,
        },
{
    let text = trim(value, CharClass::Whitespace);
    if text.len() > 0 && (text[0] == '\'' || text[0] == '"') {
        match simple_quoted_value(text) {
            Some((a, b)) => Some(copy_chars(slice_subrange(text, a, b))),
            None => None,
        }
    } else {
        let e = find_char(text, '#', 0);
        assert(text@.subrange(0, e as int) =~= text@.take(e as int));
        Some(copy_chars(trim(slice_subrange(text, 0, e), CharClass::Whitespace)))
    }
}

/// The words `words[k..]` of `t` that are not part of a `${...}` expression.
/// A word with a `$`, or with a `{` where `braces` says so, opens an
/// expression that runs to the next word with a `}`.
pub open spec fn static_from(
    t: Seq<char>,
    words: Seq<(int, int)>,
    k: int,
    braces: bool,
    dynamic: bool,
) -> Seq<(int, int)>
    decreases words.len() - k,
{
    if k < 0 || k >= words.len() {
        Seq::empty()
    } else {
        let word = t.subrange(words[k].0, words[k].1);
        if dynamic || word.contains('$') || (braces && word.contains('{')) {
            static_from(t, words, k + 1, braces, !word.contains('}'))
        } else if word == seq!['\\'] || holds_either(word, '{', '}') {
            static_from(t, words, k + 1, braces, false)
        } else {
            seq![words[k]] + static_from(t, words, k + 1, braces, false)
        }
    }
}

/// The words of `t` that no `${...}` expression computes, by their ranges.
pub open spec fn static_words_of(t: Seq<char>, class: CharClass, braces: bool) -> Seq<(int, int)> {
    static_from(t, text::words_of(t, class), 0, braces, false)
}

/// The words of `t` that no `${...}` expression computes, by their ranges.
pub fn static_words(t: &[char], class: CharClass, braces: bool) -> (r: Vec<(usize, usize)>)
    ensures
        text::ranges_match(r@, static_words_of(t@, class, braces)),
        text::ranges_inside(r@, t@.len() as int),
{
    let words = split_words(t, class);
    let ghost all = text::words_of(t@, class);
    let mut out: Vec<(usize, usize)> = Vec::new();
    let ghost mut found: Seq<(int, int)> = Seq::empty();
    let mut dynamic = false;
    let mut k: usize = 0;
    assert(found + static_from(t@, all, 0, braces, false) =~= static_words_of(t@, class, braces));
    while k < words.len()
        invariant
            k <= words@.len(),
            all == text::words_of(t@, class),
            text::ranges_match(words@, all),
            text::ranges_inside(words@, t@.len() as int),
            text::ranges_match(out@, found),
            text::ranges_inside(out@, t@.len() as int),
            found + static_from(t@, all, k as int, braces, dynamic) == static_words_of(
                t@,
                class,
                braces,
            ),
        decreases words@.len() - k,
    {
        let (a, b) = words[k];
        let word = slice_subrange(t, a, b);
        assert(words@[k as int].0 == all[k as int].0);
        let ghost rest = static_from(t@, all, k + 1, braces, false);
        if dynamic || contains_char(word, '$') || (braces && contains_char(word, '{')) {
            dynamic = !contains_char(word, '}');
        } else if is_backslash(word) || contains_char(word, '{') || contains_char(word, '}') {
            dynamic = false;
        } else {
            out.push((a, b));
            proof {
                assert(found.push(all[k as int]) + rest =~= found + (seq![all[k as int]] + rest));
                found = found.push(all[k as int]);
            }
        }
        k += 1;
    }
    assert(found + Seq::<(int, int)>::empty() =~= found);
    out
}

/// Whether a word is a line continuation.
fn is_backslash(word: &[char]) -> (r: bool)
    ensures
        r == (word@ == seq!['\\']),
{
    if word.len() == 1 && word[0] == '\\' {
        assert(word@ =~= seq!['\\']);
        true
    } else {
        false
    }
}

// ---------------------------------------------------------------------------
// Names
// ---------------------------------------------------------------------------
/// Whether `name` is the variable `base`, an override of it or a variable
/// that `base` and an underscore begin.
pub open spec fn names_variable(name: Seq<char>, base: Seq<char>) -> bool {
    name == base || text::has_prefix(name, base + seq![':']) || text::has_prefix(name, base + seq!['_'])
}

/// Whether `name` is the variable `base`, an override of it or a variable
/// that `base` and an underscore begin.
pub fn is_variable(name: &[char], base: &str) -> (r: bool)
    ensures
        r == names_variable(name@, base@),
{
    if !starts_with(name, base) {
        proof {
            assert(name@ != base@) by {
                if name@ == base@ {
                    assert(name@.take(base@.len() as int) =~= base@);
                }
            }
            assert forall|c: char| !text::has_prefix(name@, base@ + seq![c]) by {
                if text::has_prefix(name@, base@ + seq![c]) {
                    assert(name@.take(base@.len() as int) =~= (base@ + seq![c]).take(
                        base@.len() as int,
                    ));
                    assert((base@ + seq![c]).take(base@.len() as int) =~= base@);
                }
            }
        }
        return false;
    }
    let base = chars_of(base);
    let n = base.len();
    if name.len() == n {
        assert(name@ =~= name@.take(n as int));
        return true;
    }
    let c = name[n];
    assert(name@.take(n + 1) =~= base@ + seq![c]);
    assert forall|d: char| text::has_prefix(name@, base@ + seq![d]) == (c == d) by {
        assert((base@ + seq![d])[n as int] == d);
        if text::has_prefix(name@, base@ + seq![d]) {
            assert(name@.take(n + 1)[n as int] == d);
        }
    }
    c == ':' || c == '_'
}

/// The feature that a `PACKAGECONFIG[...]` flag defines, by its range.
pub open spec fn config_feature(name: Seq<char>) -> Option<(int, int)> {
    let end = text::find_from(name, ']', 14);
    if text::has_prefix(name, "PACKAGECONFIG["@) && end < name.len() && (end + 1 == name.len() || name[end
        + 1] == ':' || name[end + 1] == '_') {
        Some((14, end))
    } else {
        None
    }
}

/// The feature that a `PACKAGECONFIG[...]` flag defines, by its range.
pub fn packageconfig_feature(name: &[char]) -> (r: Option<(usize, usize)>)
    ensures
        match r {
            Some((a, b)) => config_feature(name@) == Some((a as int, b as int)) && a <= b
                <= name@.len(),
            None => config_feature(name@) is None,
        },
{
    proof {
        reveal_strlit("PACKAGECONFIG[");
    }
    if !starts_with(name, "PACKAGECONFIG[") {
        return None;
    }
    let end = find_char(name, ']', 14);
    if end < name.len() && (end + 1 == name.len() || name[end + 1] == ':' || name[end + 1] == '_') {
        Some((14, end))
    } else {
        None
    }
}

/// The package that a variable of the family `base` is about.
pub open spec fn family_package(name: Seq<char>, base: Seq<char>) -> Option<Seq<char>> {
    if text::has_prefix(name, base + seq![':']) {
        Some(first_piece(name.skip(base.len() as int + 1), ':'))
    } else if text::has_prefix(name, base + seq!['_']) {
        Some(first_piece(name.skip(base.len() as int + 1), '_'))
    } else {
        None
    }
}

/// The package that a package-scoped variable is about.
pub open spec fn scoped_package(name: Seq<char>) -> Option<Seq<char>> {
    match family_package(name, "FILES"@) {
        Some(package) => Some(package),
        None => match family_package(name, "RDEPENDS"@) {
            Some(package) => Some(package),
            None => match family_package(name, "RRECOMMENDS"@) {
                Some(package) => Some(package),
                None => match family_package(name, "RPROVIDES"@) {
                    Some(package) => Some(package),
                    None => match family_package(name, "RCONFLICTS"@) {
                        Some(package) => Some(package),
                        None => family_package(name, "RREPLACES"@),
                    },
                },
            },
        },
    }
}

fn package_of(name: &[char], base: &str) -> (r: Option<Vec<char>>)
    ensures
        match r {
            Some(package) => family_package(name@, base@) == Some(package@),
            None => family_package(name@, base@) is None,
        },
{
    let mut prefix = chars_of(base);
    let n = prefix.len();
    prefix.push(':');
    assert(prefix@ =~= base@ + seq![':']);
    let colon = begins(name, prefix.as_slice());
    prefix.set(n, '_');
    assert(prefix@ =~= base@ + seq!['_']);
    let underscore = begins(name, prefix.as_slice());
    if !colon && !underscore {
        return None;
    }
    let rest = slice_subrange(name, prefix.len(), name.len());
    assert(rest@ =~= name@.skip(n + 1));
    let separator = if colon {
        ':'
    } else {
        '_'
    };
    let e = find_char(rest, separator, 0);
    assert(rest@.subrange(0, e as int) =~= rest@.take(e as int));
    Some(copy_chars(slice_subrange(rest, 0, e)))
}

/// Whether `t` begins with `p`.
pub fn begins(t: &[char], p: &[char]) -> (r: bool)
    ensures
        r == text::has_prefix(t@, p@),
{
    if p.len() > t.len() {
        return false;
    }
    assert(t@.subrange(0, p@.len() as int) =~= t@.take(p@.len() as int));
    same_chars(slice_subrange(t, 0, p.len()), p)
}

/// The package that a package-scoped variable is about.
pub fn package_scope(name: &[char]) -> (r: Option<Vec<char>>)
    ensures
        match r {
            Some(package) => scoped_package(name@) == Some(package@),
            None => scoped_package(name@) is None,
        },
{
    let package = package_of(name, "FILES");
    if package.is_some() {
        return package;
    }
    let package = package_of(name, "RDEPENDS");
    if package.is_some() {
        return package;
    }
    let package = package_of(name, "RRECOMMENDS");
    if package.is_some() {
        return package;
    }
    let package = package_of(name, "RPROVIDES");
    if package.is_some() {
        return package;
    }
    let package = package_of(name, "RCONFLICTS");
    if package.is_some() {
        return package;
    }
    package_of(name, "RREPLACES")
}

// ---------------------------------------------------------------------------
// Fetch addresses
// ---------------------------------------------------------------------------
pub open spec fn is_hex(c: char) -> bool {
    ('0' <= c <= '9') || ('a' <= c <= 'f') || ('A' <= c <= 'F')
}

/// Whether `t` is a hexadecimal number of `n` digits.
pub open spec fn hex_number(t: Seq<char>, n: int) -> bool {
    t.len() == n && forall|k: int| 0 <= k < t.len() ==> is_hex(#[trigger] t[k])
}

/// The number of digits of the checksum that the parameter `key` holds.
pub open spec fn checksum_length(key: Seq<char>) -> int {
    if key == "md5"@ || key == "md5sum"@ {
        32
    } else {
        64
    }
}

/// Whether `parameter` gives a checksum of the right form under `key`.
pub open spec fn checksum_parameter(parameter: Seq<char>, key: Seq<char>) -> bool {
    text::has_prefix(parameter, key + seq!['=']) && hex_number(
        parameter.skip(key.len() as int + 1),
        checksum_length(key),
    )
}

/// Whether one of the parameters of `uri` gives a checksum of the right form
/// under `key`.
pub open spec fn valid_checksum(uri: Seq<char>, key: Seq<char>) -> bool {
    exists|k: int|
        1 <= k < pieces(uri, ';').len() && checksum_parameter(
            #[trigger] pieces(uri, ';')[k],
            key,
        )
}

fn is_hex_number(t: &[char], n: usize) -> (r: bool)
    ensures
        r == hex_number(t@, n as int),
{
    if t.len() != n {
        return false;
    }
    let mut k: usize = 0;
    while k < t.len()
        invariant
            k <= t@.len(),
            forall|j: int| 0 <= j < k ==> is_hex(#[trigger] t@[j]),
        decreases t@.len() - k,
    {
        let c = t[k];
        if !(('0' <= c && c <= '9') || ('a' <= c && c <= 'f') || ('A' <= c && c <= 'F')) {
            assert(!is_hex(t@[k as int]));
            return false;
        }
        k += 1;
    }
    true
}

/// Whether one of the parameters of `uri` gives a checksum of the right form
/// under `key`.
pub fn has_valid_checksum(uri: &[char], key: &str) -> (r: bool)
    ensures
        r == valid_checksum(uri@, key@),
{
    let length: usize = if same_str(key, "md5") || same_str(key, "md5sum") {
        32
    } else {
        64
    };
    let mut prefix = chars_of(key);
    prefix.push('=');
    assert(prefix@ =~= key@ + seq!['=']);
    let parameters = split_pieces(uri, ';');
    let mut k: usize = 1;
    while k < parameters.len()
        invariant
            1 <= k <= parameters@.len(),
            prefix@ == key@ + seq!['='],
            length == checksum_length(key@),
            text::ranges_match(parameters@, pieces_of(uri@, ';')),
            pieces_inside(parameters@, uri@.len() as int),
            forall|j: int| 1 <= j < k ==> !checksum_parameter(#[trigger] pieces(uri@, ';')[j], key@),
        decreases parameters@.len() - k,
    {
        let (a, b) = parameters[k];
        let parameter = slice_subrange(uri, a, b);
        assert(pieces(uri@, ';')[k as int] == parameter@);
        if begins(parameter, prefix.as_slice()) {
            let value = slice_subrange(parameter, prefix.len(), parameter.len());
            assert(value@ =~= parameter@.skip(key@.len() as int + 1));
            if is_hex_number(value, length) {
                assert(checksum_parameter(pieces(uri@, ';')[k as int], key@));
                return true;
            }
        }
        k += 1;
    }
    false
}

/// Whether `uri` is fetched over the network.
pub open spec fn remote_archive(uri: Seq<char>) -> bool {
    text::has_prefix(uri, "http://"@) || text::has_prefix(uri, "https://"@) || text::has_prefix(uri, "ftp://"@)
}

/// Whether `uri` is fetched over the network.
pub fn is_remote_archive(uri: &[char]) -> (r: bool)
    ensures
        r == remote_archive(uri@),
{
    starts_with(uri, "http://") || starts_with(uri, "https://") || starts_with(uri, "ftp://")
}

/// Whether `uri` is a Git address.
pub open spec fn git_uri(uri: Seq<char>) -> bool {
    text::has_prefix(uri, "git://"@)
}

/// Whether a part of `uri` between semicolons begins with `protocol=`.
pub open spec fn names_protocol(uri: Seq<char>) -> bool {
    exists|k: int|
        0 <= k < pieces(uri, ';').len() && text::has_prefix(
            #[trigger] pieces(uri, ';')[k],
            "protocol="@,
        )
}

/// Whether `uri` is a Git address that does not say how to fetch it.
pub fn lacks_protocol(uri: &[char]) -> (r: bool)
    ensures
        r == (git_uri(uri@) && !names_protocol(uri@)),
{
    if !starts_with(uri, "git://") {
        return false;
    }
    let parts = split_pieces(uri, ';');
    let mut k: usize = 0;
    while k < parts.len()
        invariant
            k <= parts@.len(),
            text::ranges_match(parts@, pieces_of(uri@, ';')),
            pieces_inside(parts@, uri@.len() as int),
            forall|j: int|
                0 <= j < k ==> !text::has_prefix(#[trigger] pieces(uri@, ';')[j], "protocol="@),
        decreases parts@.len() - k,
    {
        let (a, b) = parts[k];
        let part = slice_subrange(uri, a, b);
        assert(pieces(uri@, ';')[k as int] == part@);
        if starts_with(part, "protocol=") {
            return false;
        }
        k += 1;
    }
    true
}

/// Whether `value` is a transport that Git addresses may name.
pub open spec fn known_protocol(value: Seq<char>) -> bool {
    value == "git"@ || value == "http"@ || value == "https"@ || value == "ssh"@ || value == "file"@
}

/// Whether the parameter `key=value` of `uri` is wrong after the keys `seen`.
pub open spec fn bad_parameter(
    uri: Seq<char>,
    key: Seq<char>,
    value: Seq<char>,
    seen: Seq<Seq<char>>,
) -> bool {
    ||| key.len() == 0
    ||| seen.contains(key)
    ||| value.len() == 0
    ||| key == "branch"@ && !git_uri(uri)
    ||| key == "protocol"@ && (!git_uri(uri) || !known_protocol(value))
}

/// The keys known after the key `key`; an empty key is not kept.
pub open spec fn seen_after(seen: Seq<Seq<char>>, key: Seq<char>) -> Seq<Seq<char>> {
    if key.len() == 0 || seen.contains(key) {
        seen
    } else {
        seen.push(key)
    }
}

/// The positions in `parameters[k..]` of the wrong parameters of `uri`.
pub open spec fn bad_from(
    uri: Seq<char>,
    parameters: Seq<Seq<char>>,
    k: int,
    seen: Seq<Seq<char>>,
) -> Seq<int>
    decreases parameters.len() - k,
{
    if k < 0 || k >= parameters.len() {
        Seq::empty()
    } else {
        let p = parameters[k];
        let e = text::find_from(p, '=', 0);
        if e >= p.len() {
            bad_from(uri, parameters, k + 1, seen)
        } else {
            let key = p.take(e);
            let rest = bad_from(uri, parameters, k + 1, seen_after(seen, key));
            if bad_parameter(uri, key, p.skip(e + 1), seen) {
                seq![k] + rest
            } else {
                rest
            }
        }
    }
}

/// The positions of the wrong parameters of `uri` among its parts between
/// semicolons, the first of which is no parameter.
pub open spec fn bad_parameters(uri: Seq<char>) -> Seq<int> {
    bad_from(uri, pieces(uri, ';'), 1, Seq::empty())
}

/// The wrong parameters of `uri`, by their positions among its parts between
/// semicolons and their ranges.
pub fn wrong_parameters(uri: &[char]) -> (r: Vec<(usize, (usize, usize))>)
    ensures
        r@.len() == bad_parameters(uri@).len(),
        forall|j: int|
            0 <= j < r@.len() ==> {
                &&& (#[trigger] r@[j]).0 == bad_parameters(uri@)[j]
                &&& r@[j].0 < pieces(uri@, ';').len()
                &&& r@[j].1.0 <= r@[j].1.1 <= uri@.len()
                &&& pieces(uri@, ';')[r@[j].0 as int] == uri@.subrange(
                    r@[j].1.0 as int,
                    r@[j].1.1 as int,
                )
            },
{
    let git = starts_with(uri, "git://");
    let parts = split_pieces(uri, ';');
    let ghost all = pieces(uri@, ';');
    let mut out: Vec<(usize, (usize, usize))> = Vec::new();
    let ghost mut found: Seq<int> = Seq::empty();
    let mut seen: Vec<String> = Vec::new();
    let mut k: usize = 1;
    proof {
        assert(collections::string_texts(seen@) =~= Seq::empty());
        assert(found + bad_from(uri@, all, 1, Seq::empty()) =~= bad_parameters(uri@));
    }
    while k < parts.len()
        invariant
            1 <= k <= parts@.len(),
            git == git_uri(uri@),
            all == pieces(uri@, ';'),
            text::ranges_match(parts@, pieces_of(uri@, ';')),
            pieces_inside(parts@, uri@.len() as int),
            found.len() == out@.len(),
            forall|j: int|
                0 <= j < out@.len() ==> {
                    &&& (#[trigger] out@[j]).0 == found[j]
                    &&& out@[j].0 < all.len()
                    &&& out@[j].1.0 <= out@[j].1.1 <= uri@.len()
                    &&& all[out@[j].0 as int] == uri@.subrange(
                        out@[j].1.0 as int,
                        out@[j].1.1 as int,
                    )
                },
            found + bad_from(uri@, all, k as int, collections::string_texts(seen@)) == bad_parameters(uri@),
        decreases parts@.len() - k,
    {
        let (a, b) = parts[k];
        let part = slice_subrange(uri, a, b);
        assert(all[k as int] == part@);
        let e = find_char(part, '=', 0);
        if e < part.len() {
            assert(part@.subrange(0, e as int) =~= part@.take(e as int));
            assert(part@.subrange(e + 1, part@.len() as int) =~= part@.skip(e + 1));
            let key = string_of(slice_subrange(part, 0, e));
            let value = string_of(slice_subrange(part, e + 1, part.len()));
            let repeated = has_text(&seen, key.as_str());
            let known = same_str(value.as_str(), "git") || same_str(value.as_str(), "http")
                || same_str(value.as_str(), "https") || same_str(value.as_str(), "ssh") || same_str(
                value.as_str(),
                "file",
            );
            let branch = same_str(key.as_str(), "branch");
            let protocol = same_str(key.as_str(), "protocol");
            let bad = e == 0 || repeated || e + 1 == part.len() || (branch && !git) || (protocol
                && (!git || !known));
            let ghost rest = bad_from(uri@, all, k + 1, seen_after(collections::string_texts(seen@), key@));
            if bad {
                out.push((k, (a, b)));
                proof {
                    assert(found.push(k as int) + rest =~= found + (seq![k as int] + rest));
                    found = found.push(k as int);
                }
            }
            if e > 0 && !repeated {
                push_text(&mut seen, key);
            }
        }
        k += 1;
    }
    assert(found + Seq::<int>::empty() =~= found);
    out
}

/// The parts between separators hold none, and with separators between them they
/// are the text again.
pub proof fn law_pieces_make_the_text(t: Seq<char>, c: char)
    ensures
        pieces(t, c).len() > 0,
        forall|k: int| 0 <= k < pieces(t, c).len() ==> !(#[trigger] pieces(t, c)[k]).contains(c),
        spelled(pieces(t, c), c, 0) == t,
{
    let all = pieces(t, c);
    let ranges = pieces_of(t, c);
    assert(ranges.skip(0) =~= ranges);
    lemma_pieces_nonempty(t, c, 0);
    lemma_pieces_spelled(t, c, 0, 0);
    assert(t.skip(0) =~= t);
    assert forall|k: int| 0 <= k < all.len() implies !(#[trigger] all[k]).contains(c) by {
        lemma_piece_clean(t, c, 0, k);
        let (a, b) = ranges[k];
        if all[k].contains(c) {
            let j = choose|j: int| 0 <= j < all[k].len() && all[k][j] == c;
            assert(t[a + j] == c);
        }
    }
}

/// The texts `items[k..]` with a separator between each two.
pub open spec fn spelled(items: Seq<Seq<char>>, c: char, k: int) -> Seq<char>
    decreases items.len() - k,
{
    if k < 0 || k >= items.len() {
        Seq::empty()
    } else if k == items.len() - 1 {
        items[k]
    } else {
        items[k] + seq![c] + spelled(items, c, k + 1)
    }
}

proof fn lemma_piece_clean(t: Seq<char>, c: char, i: int, k: int)
    requires
        0 <= i <= t.len(),
        0 <= k < pieces_from(t, c, i).len(),
    ensures
        ({
            let (a, b) = pieces_from(t, c, i)[k];
            i <= a <= b <= t.len() && forall|j: int| a <= j < b ==> #[trigger] t[j] != c
        }),
    decreases t.len() - i,
{
    text::lemma_find(t, c, i);
    let e = text::find_from(t, c, i);
    if e < t.len() && k > 0 {
        lemma_piece_clean(t, c, e + 1, k - 1);
        assert(pieces_from(t, c, i)[k] == pieces_from(t, c, e + 1)[k - 1]);
    }
}

/// The parts from the one that starts at `i` on spell the rest of the text.
proof fn lemma_pieces_spelled(t: Seq<char>, c: char, i: int, k: int)
    requires
        0 <= i <= t.len(),
        0 <= k < pieces_of(t, c).len(),
        pieces_of(t, c).skip(k) == pieces_from(t, c, i),
    ensures
        spelled(pieces(t, c), c, k) == t.skip(i),
    decreases t.len() - i,
{
    text::lemma_find(t, c, i);
    let e = text::find_from(t, c, i);
    let ranges = pieces_of(t, c);
    let here = pieces_from(t, c, i);
    assert(ranges.skip(k)[0] == ranges[k]);
    assert(here.len() == ranges.len() - k);
    let all = pieces(t, c);
    if e < t.len() {
        let rest = pieces_from(t, c, e + 1);
        assert(here[0] == (i, e));
        lemma_pieces_nonempty(t, c, e + 1);
        assert(ranges.skip(k + 1) =~= here.skip(1));
        assert(here.skip(1) =~= rest);
        lemma_pieces_spelled(t, c, e + 1, k + 1);
        assert(all[k] == t.subrange(i, e));
        assert(t.skip(i) =~= t.subrange(i, e) + seq![c] + t.skip(e + 1));
    } else {
        assert(here =~= seq![(i, t.len() as int)]);
        assert(all[k] == t.subrange(i, t.len() as int));
        assert(t.subrange(i, t.len() as int) =~= t.skip(i));
    }
}

proof fn lemma_pieces_nonempty(t: Seq<char>, c: char, i: int)
    ensures
        pieces_from(t, c, i).len() > 0,
{
}

/// A variable of one of the package families is about the package that its name
/// spells behind a colon or an underscore.
pub proof fn law_package_scopes(base: Seq<char>, package: Seq<char>)
    requires
        base == "FILES"@ || base == "RDEPENDS"@ || base == "RRECOMMENDS"@ || base == "RPROVIDES"@
            || base == "RCONFLICTS"@ || base == "RREPLACES"@,
    ensures
        !package.contains(':') ==> scoped_package(base + seq![':'] + package) == Some(package),
        !package.contains('_') ==> scoped_package(base + seq!['_'] + package) == Some(package),
{
    reveal_strlit("FILES");
    reveal_strlit("RDEPENDS");
    reveal_strlit("RRECOMMENDS");
    reveal_strlit("RPROVIDES");
    reveal_strlit("RCONFLICTS");
    reveal_strlit("RREPLACES");
    let colon = base + seq![':'] + package;
    let underscore = base + seq!['_'] + package;
    let n = base.len() as int;
    assert(colon.skip(n + 1) =~= package);
    assert(underscore.skip(n + 1) =~= package);
    assert(colon.take(n + 1) =~= base + seq![':']);
    assert(underscore.take(n + 1) =~= base + seq!['_']);
    assert(underscore.take(n + 1) != base + seq![':']) by {
        assert((base + seq!['_'])[n] == '_');
        assert((base + seq![':'])[n] == ':');
    }
    if !package.contains(':') {
        assert forall|k: int| 0 <= k < package.len() implies #[trigger] package[k] != ':' by {}
        text::lemma_find_unique(package, ':', 0, package.len() as int);
        assert(package.take(package.len() as int) =~= package);
    }
    if !package.contains('_') {
        assert forall|k: int| 0 <= k < package.len() implies #[trigger] package[k] != '_' by {}
        text::lemma_find_unique(package, '_', 0, package.len() as int);
        assert(package.take(package.len() as int) =~= package);
    }
    assert forall|other: Seq<char>, t: Seq<char>|
        (t == colon || t == underscore) && other.len() > 2 && (#[trigger] family_package(t, other))
            is Some implies t[0] == other[0] && t[1] == other[1] && t[2] == other[2] by {
        let m = other.len() as int;
        if text::has_prefix(t, other + seq![':']) {
            assert(t.take(m + 1)[0] == other[0] && t.take(m + 1)[1] == other[1] && t.take(m + 1)[2]
                == other[2]);
        } else {
            assert(t.take(m + 1)[0] == other[0] && t.take(m + 1)[1] == other[1] && t.take(m + 1)[2]
                == other[2]);
        }
    }
    assert(colon[0] == base[0] && colon[1] == base[1] && colon[2] == base[2]);
    assert(underscore[0] == base[0] && underscore[1] == base[1] && underscore[2] == base[2]);
    assert("FILES"@[0] == 'F' && "RDEPENDS"@[1] == 'D' && "RRECOMMENDS"@[1] == 'R' && "RPROVIDES"@[1]
        == 'P' && "RCONFLICTS"@[1] == 'C' && "RREPLACES"@[1] == 'R' && "RRECOMMENDS"@[2] == 'E'
        && "RREPLACES"@[2] == 'E');
    assert("RRECOMMENDS"@[3] == 'C' && "RREPLACES"@[3] == 'P');
    assert(family_package(colon, base) == family_package(colon, base));
    assert(base == "RREPLACES"@ ==> family_package(colon, "RRECOMMENDS"@) is None
        && family_package(underscore, "RRECOMMENDS"@) is None) by {
        if base == "RREPLACES"@ {
            assert forall|t: Seq<char>| (t == colon || t == underscore) implies (
            #[trigger] family_package(t, "RRECOMMENDS"@)) is None by {
                assert(t[3] == base[3]);
                if t.len() >= 12 {
                    assert(t.take(12)[3] == t[3]);
                    assert(("RRECOMMENDS"@ + seq![':'])[3] == 'C');
                    assert(("RRECOMMENDS"@ + seq!['_'])[3] == 'C');
                }
            }
        }
    }
}

} // verus!
