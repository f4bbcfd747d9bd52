//! The layers of a build directory, and which files are metadata.
use crate::collections;
use crate::layers;
use crate::numbers;
use crate::paths;
use crate::statements;
use crate::syntax;
use crate::text;
use crate::tree;
use crate::values;
use crate::checks::long_phrase;
use crate::checks::phrase;
use crate::collections::TextMap;
use crate::collections::copy_strings;
use crate::collections::has_text;
use crate::collections::push_distinct;
use crate::collections::push_text;
use crate::environment::words_as_strings;
use crate::layers::read_plain_value;
use crate::operator::AssignmentOperator;
use crate::paths::has_extension;
use crate::paths::has_part;
use crate::paths::parent_path;
use crate::paths::path_ancestors;
use crate::paths::path_extension;
use crate::paths::path_file_name;
use crate::paths::push_path;
use crate::paths::strip_root;
use crate::paths::tidy_path;
use crate::semantic::BuildDirFacts;
use crate::statements::AssignmentStatement;
use crate::statements::AssignmentView;
use crate::statements::Statement;
use crate::statements::StatementView;
use crate::statements::statements;
use crate::text::CharClass;
use crate::text::append_chars;
use crate::text::chars_of;
use crate::text::copy_chars;
use crate::text::find_char;
use crate::text::find_str;
use crate::text::same_chars;
use crate::text::same_str;
use crate::text::starts_with;
use crate::text::string_of;
use crate::tree::parse;
use crate::values::split_pieces;
use vstd::prelude::*;
use vstd::slice::slice_subrange;

verus! {

// ---------------------------------------------------------------------------
// Build directories
// ---------------------------------------------------------------------------
/// Why a path is no build directory; `linked` says whether it is a symbolic
/// link.
pub open spec fn build_directory_fault(
    path: Seq<char>,
    linked: bool,
    facts: BuildDirFacts,
) -> Option<Seq<char>> {
    match facts.failure {
        Some(failure) => Some(failure@),
        None => if linked {
            Some("BitBake build path "@ + path + " is a symbolic link"@)
        } else if !facts.is_directory {
            Some("BitBake build path "@ + path + " is not a directory"@)
        } else if !facts.has_local_conf {
            Some("BitBake build directory is missing conf/local.conf"@)
        } else if !facts.has_bblayers_conf {
            Some("BitBake build directory is missing conf/bblayers.conf"@)
        } else {
            None
        },
    }
}

/// Checks that a path is a build directory.
pub fn check_build_directory(path: &str, linked: bool, facts: &BuildDirFacts) -> (r: Result<
    (),
    String,
>)
    ensures
        match build_directory_fault(path@, linked, *facts) {
            Some(fault) => r matches Err(message) && message@ == fault,
            None => r is Ok,
        },
{
    if let Some(failure) = &facts.failure {
        return Err(failure.clone());
    }
    if linked {
        let text = phrase(
            "BitBake build path ",
            chars_of(path).as_slice(),
            " is a symbolic link",
        );
        return Err(string_of(text.as_slice()));
    }
    if !facts.is_directory {
        let text = phrase(
            "BitBake build path ",
            chars_of(path).as_slice(),
            " is not a directory",
        );
        return Err(string_of(text.as_slice()));
    }
    if !facts.has_local_conf {
        return Err("BitBake build directory is missing conf/local.conf".to_owned());
    }
    if !facts.has_bblayers_conf {
        return Err("BitBake build directory is missing conf/bblayers.conf".to_owned());
    }
    Ok(())
}

// ---------------------------------------------------------------------------
// Variables in layer paths
// ---------------------------------------------------------------------------
/// What is known of the environment of a build.
pub struct BuildEnvironment {
    pub build_dir: String,
    /// The environment variables.
    pub variables: TextMap,
    /// The home directory.
    pub home: Option<String>,
}

#[verifier::ext_equal]
pub struct BuildView {
    pub build_dir: Seq<char>,
    pub variables: Map<Seq<char>, Seq<char>>,
    pub home: Option<Seq<char>>,
}

impl BuildEnvironment {
    pub open spec fn view(&self) -> BuildView {
        BuildView {
            build_dir: self.build_dir@,
            variables: self.variables.map(),
            home: collections::optional_text(self.home),
        }
    }

    pub open spec fn wf(&self) -> bool {
        self.variables.wf()
    }
}

/// What comes of an expansion.
pub enum Expansion {
    /// The text, without variables.
    Settled(Seq<char>),
    /// It cannot be expanded.
    Refused(Seq<char>),
    /// The steps were used up.
    Unsettled,
}

/// The value of a variable.
pub open spec fn build_variable(e: BuildView, name: Seq<char>) -> Option<Seq<char>> {
    if name == "TOPDIR"@ || name == "BUILDDIR"@ || name == "PWD"@ {
        Some(e.build_dir)
    } else if e.variables.dom().contains(name) {
        Some(e.variables[name])
    } else {
        None
    }
}

/// What is said of an entry that is computed.
pub open spec fn dynamic_entry(value: Seq<char>) -> Seq<char> {
    "BBLAYERS entry '"@ + value + "' uses dynamic expansion"@
}

/// A text with the home directory in place of a leading `~`.
pub open spec fn at_home(e: BuildView, t: Seq<char>) -> Seq<char> {
    match e.home {
        Some(home) => if t == "~"@ || text::has_prefix(t, "~/"@) {
            home + t.skip(1)
        } else {
            t
        },
        None => t,
    }
}

/// The text `t`, which came of the entry `value`, with its variables replaced
/// in at most `steps` steps.
pub open spec fn expansion(e: BuildView, value: Seq<char>, t: Seq<char>, steps: nat) -> Expansion
    decreases steps,
{
    let start = text::find_seq(t, "${"@, 0);
    if start < 0 {
        if t.contains('$') {
            Expansion::Refused(dynamic_entry(value))
        } else {
            Expansion::Settled(at_home(e, t))
        }
    } else {
        let end = text::find_from(t, '}', start + 2);
        let name = t.subrange(start + 2, end);
        if end >= t.len() {
            Expansion::Refused("unterminated variable in BBLAYERS entry '"@ + value + "'"@)
        } else if name.len() > 0 && name[0] == '@' {
            Expansion::Refused(dynamic_entry(value))
        } else {
            match build_variable(e, name) {
                None => Expansion::Refused(
                    "BBLAYERS entry '"@ + value + "' uses unresolved variable ${"@ + name + "}"@,
                ),
                Some(found) => if steps == 0 {
                    Expansion::Unsettled
                } else {
                    expansion(
                        e,
                        value,
                        t.take(start) + found + t.skip(end + 1),
                        (steps - 1) as nat,
                    )
                },
            }
        }
    }
}

/// An expansion as it is returned.
pub open spec fn is_expansion(r: Result<Option<String>, String>, e: Expansion) -> bool {
    match e {
        Expansion::Settled(text) => r matches Ok(Some(found)) && found@ == text,
        Expansion::Refused(message) => r matches Err(found) && found@ == message,
        Expansion::Unsettled => r matches Ok(None),
    }
}

fn find_variable(environment: &BuildEnvironment, name: &[char]) -> (r: Option<Vec<char>>)
    requires
        environment.wf(),
    ensures
        match r {
            Some(found) => build_variable(environment@, name@) == Some(found@),
            None => build_variable(environment@, name@) is None,
        },
{
    let text = string_of(name);
    if same_str(text.as_str(), "TOPDIR") || same_str(text.as_str(), "BUILDDIR") || same_str(
        text.as_str(),
        "PWD",
    ) {
        return Some(chars_of(environment.build_dir.as_str()));
    }
    match environment.variables.get(text.as_str()) {
        Some(found) => Some(chars_of(found)),
        None => None,
    }
}

/// An entry with its variables replaced, in at most `steps` steps; nothing
/// where they do not suffice.
pub fn expand_build_variables(value: &str, environment: &BuildEnvironment, steps: usize) -> (r:
    Result<Option<String>, String>)
    requires
        environment.wf(),
    ensures
        is_expansion(r, expansion(environment@, value@, value@, steps as nat)),
{
    let entry = chars_of(value);
    let mut text = chars_of(value);
    let mut left = steps;
    let ghost goal = expansion(environment@, value@, value@, steps as nat);
    proof {
        reveal_strlit("${");
    }
    let mark = chars_of("${");
    loop
        invariant
            environment.wf(),
            entry@ == value@,
            mark@ == "${"@,
            mark@.len() == 2,
            expansion(environment@, value@, text@, left as nat) == goal,
            goal == expansion(environment@, value@, value@, steps as nat),
        decreases left,
    {
        match find_str(text.as_slice(), mark.as_slice(), 0) {
            None => {
                let dollar = find_char(text.as_slice(), '$', 0);
                proof {
                    text::lemma_find(text@, '$', 0);
                }
                if dollar < text.len() {
                    assert(text@[dollar as int] == '$');
                    let message = phrase(
                        "BBLAYERS entry '",
                        entry.as_slice(),
                        "' uses dynamic expansion",
                    );
                    return Err(string_of(message.as_slice()));
                }
                assert(!text@.contains('$'));
                return Ok(Some(string_of(expand_home(&text, environment).as_slice())));
            },
            Some(start) => {
                let size = text.len();
                let end = find_char(text.as_slice(), '}', start + 2);
                if end >= size {
                    let message = phrase(
                        "unterminated variable in BBLAYERS entry '",
                        entry.as_slice(),
                        "'",
                    );
                    return Err(string_of(message.as_slice()));
                }
                let name = slice_subrange(text.as_slice(), start + 2, end);
                if name.len() > 0 && name[0] == '@' {
                    let message = phrase(
                        "BBLAYERS entry '",
                        entry.as_slice(),
                        "' uses dynamic expansion",
                    );
                    return Err(string_of(message.as_slice()));
                }
                match find_variable(environment, name) {
                    None => {
                        let message = long_phrase(
                            "BBLAYERS entry '",
                            entry.as_slice(),
                            "' uses unresolved variable ${",
                            name,
                            "}",
                        );
                        return Err(string_of(message.as_slice()));
                    },
                    Some(found) => {
                        if left == 0 {
                            return Ok(None);
                        }
                        let mut next = copy_chars(slice_subrange(text.as_slice(), 0, start));
                        append_chars(&mut next, found.as_slice());
                        append_chars(
                            &mut next,
                            slice_subrange(text.as_slice(), end + 1, text.len()),
                        );
                        assert(next@ =~= text@.take(start as int) + found@ + text@.skip(end + 1));
                        text = next;
                        left = left - 1;
                    },
                }
            },
        }
    }
}

fn expand_home(text: &Vec<char>, environment: &BuildEnvironment) -> (r: Vec<char>)
    ensures
        r@ == at_home(environment@, text@),
{
    if let Some(home) = &environment.home {
        proof {
            reveal_strlit("~");
            reveal_strlit("~/");
        }
        let whole = same_chars(text.as_slice(), chars_of("~").as_slice());
        if whole || starts_with(text.as_slice(), "~/") {
            let mut out = chars_of(home.as_str());
            append_chars(&mut out, slice_subrange(text.as_slice(), 1, text.len()));
            assert(out@ =~= home@ + text@.skip(1));
            return out;
        }
    }
    copy_chars(text.as_slice())
}

// ---------------------------------------------------------------------------
// Layer paths
// ---------------------------------------------------------------------------
/// What comes of a list of entries.
pub enum LayerList {
    Settled(Seq<Seq<char>>),
    Refused(Seq<char>),
    Unsettled,
}

/// The paths that the entries `words[k..]` name, behind `found`.
pub open spec fn layer_paths_from(
    e: BuildView,
    words: Seq<Seq<char>>,
    k: int,
    found: Seq<Seq<char>>,
    steps: nat,
) -> LayerList
    decreases words.len() - k,
{
    if k < 0 || k >= words.len() {
        LayerList::Settled(found)
    } else if words[k] == seq!['\\'] {
        layer_paths_from(e, words, k + 1, found, steps)
    } else {
        match expansion(e, words[k], words[k], steps) {
            Expansion::Refused(message) => LayerList::Refused(message),
            Expansion::Unsettled => LayerList::Unsettled,
            Expansion::Settled(text) => if text.len() == 0 {
                layer_paths_from(e, words, k + 1, found, steps)
            } else {
                layer_paths_from(
                    e,
                    words,
                    k + 1,
                    found.push(paths::pushed_path(e.build_dir, text)),
                    steps,
                )
            },
        }
    }
}

/// The paths that a value of `BBLAYERS` names.
pub open spec fn layer_paths(e: BuildView, value: Seq<char>, steps: nat) -> LayerList {
    match layers::plain_value(value) {
        Some(text) => layer_paths_from(
            e,
            text::word_texts(text, CharClass::Ascii),
            0,
            Seq::empty(),
            steps,
        ),
        None => LayerList::Refused("BBLAYERS has no scalar value"@),
    }
}

pub open spec fn is_layer_list(r: Result<Option<Vec<String>>, String>, list: LayerList) -> bool {
    match list {
        LayerList::Settled(paths) => r matches Ok(Some(found)) && collections::string_texts(found@) == paths,
        LayerList::Refused(message) => r matches Err(found) && found@ == message,
        LayerList::Unsettled => r matches Ok(None),
    }
}

/// The paths that a value of `BBLAYERS` names; nothing where `steps` steps do
/// not suffice to replace the variables of an entry.
pub fn static_build_layer_paths(
    value: &[char],
    environment: &BuildEnvironment,
    steps: usize,
) -> (r: Result<Option<Vec<String>>, String>)
    requires
        environment.wf(),
    ensures
        is_layer_list(r, layer_paths(environment@, value@, steps as nat)),
{
    let text = match read_plain_value(value) {
        Some(text) => text,
        None => {
            return Err("BBLAYERS has no scalar value".to_owned());
        },
    };
    let words = words_as_strings(text.as_slice(), CharClass::Ascii);
    let ghost all = collections::string_texts(words@);
    let ghost goal = layer_paths(environment@, value@, steps as nat);
    let mut out: Vec<String> = Vec::new();
    let mut k: usize = 0;
    assert(collections::string_texts(out@) =~= Seq::empty());
    while k < words.len()
        invariant
            k <= words@.len(),
            environment.wf(),
            all == collections::string_texts(words@),
            layer_paths_from(environment@, all, k as int, collections::string_texts(out@), steps as nat) == goal,
            goal == layer_paths(environment@, value@, steps as nat),
        decreases words@.len() - k,
    {
        assert(all[k as int] == words@[k as int]@);
        let word = chars_of(words[k].as_str());
        let skipped = word.len() == 1 && word[0] == '\\';
        assert(skipped == (word@ == seq!['\\'])) by {
            if skipped {
                assert(word@ =~= seq!['\\']);
            }
        }
        if !skipped {
            match expand_build_variables(words[k].as_str(), environment, steps) {
                Err(message) => {
                    return Err(message);
                },
                Ok(None) => {
                    return Ok(None);
                },
                Ok(Some(path)) => {
                    if chars_of(path.as_str()).len() > 0 {
                        push_text(
                            &mut out,
                            push_path(environment.build_dir.as_str(), path.as_str()),
                        );
                    }
                },
            }
        }
        k += 1;
    }
    Ok(Some(out))
}

/// Two paths are the same by their parts.
pub open spec fn same_path(a: Seq<char>, b: Seq<char>) -> bool {
    paths::tidy(a) == paths::tidy(b)
}

/// A path is among others by its parts.
pub open spec fn has_path(paths: Seq<Seq<char>>, path: Seq<char>) -> bool {
    exists|k: int| 0 <= k < paths.len() && same_path(#[trigger] paths[k], path)
}

/// Those of `items[k..]` that are not among `removed`.
pub open spec fn without_paths(items: Seq<Seq<char>>, removed: Seq<Seq<char>>, k: int) -> Seq<
    Seq<char>,
>
    decreases items.len() - k,
{
    if k < 0 || k >= items.len() {
        Seq::empty()
    } else if has_path(removed, items[k]) {
        without_paths(items, removed, k + 1)
    } else {
        seq![items[k]] + without_paths(items, removed, k + 1)
    }
}

fn holds_path(paths: &Vec<String>, path: &str) -> (r: bool)
    ensures
        r == has_path(collections::string_texts(paths@), path@),
{
    let ghost all = collections::string_texts(paths@);
    let wanted = tidy_path(path);
    let mut k: usize = 0;
    while k < paths.len()
        invariant
            k <= paths@.len(),
            all == collections::string_texts(paths@),
            wanted@ == paths::tidy(path@),
            forall|j: int| 0 <= j < k ==> !same_path(#[trigger] all[j], path@),
        decreases paths@.len() - k,
    {
        assert(all[k as int] == paths@[k as int]@);
        if same_str(tidy_path(paths[k].as_str()).as_str(), wanted.as_str()) {
            assert(same_path(all[k as int], path@));
            return true;
        }
        k += 1;
    }
    false
}

fn remove_paths(items: &Vec<String>, removed: &Vec<String>) -> (r: Vec<String>)
    ensures
        collections::string_texts(r@) == without_paths(collections::string_texts(items@), collections::string_texts(removed@), 0),
{
    let ghost all = collections::string_texts(items@);
    let ghost gone = collections::string_texts(removed@);
    let ghost goal = without_paths(all, gone, 0);
    let mut out: Vec<String> = Vec::new();
    let mut k: usize = 0;
    assert(collections::string_texts(out@) + goal =~= goal);
    while k < items.len()
        invariant
            k <= items@.len(),
            all == collections::string_texts(items@),
            gone == collections::string_texts(removed@),
            collections::string_texts(out@) + without_paths(all, gone, k as int) == goal,
        decreases items@.len() - k,
    {
        assert(all[k as int] == items@[k as int]@);
        if !holds_path(removed, items[k].as_str()) {
            let ghost before = collections::string_texts(out@);
            push_text(&mut out, items[k].clone());
            proof {
                let rest = without_paths(all, gone, k + 1);
                assert(before + (seq![all[k as int]] + rest) =~= before.push(all[k as int]) + rest);
            }
        }
        k += 1;
    }
    assert(collections::string_texts(out@) + Seq::<Seq<char>>::empty() =~= collections::string_texts(out@));
    out
}

/// An override behind the first `:` of a name.
pub open spec fn has_override(name: Seq<char>, word: Seq<char>) -> bool {
    exists|k: int| 1 <= k < values::pieces(name, ':').len() && #[trigger] values::pieces(name, ':')[k] == word
}

fn names_override(name: &[char], word: &str) -> (r: bool)
    ensures
        r == has_override(name@, word@),
{
    let ranges = split_pieces(name, ':');
    let ghost all = values::pieces_of(name@, ':');
    let wanted = chars_of(word);
    let mut k: usize = 1;
    while k < ranges.len()
        invariant
            1 <= k <= ranges@.len(),
            all == values::pieces_of(name@, ':'),
            text::ranges_match(ranges@, all),
            values::pieces_inside(ranges@, name@.len() as int),
            wanted@ == word@,
            forall|j: int| 1 <= j < k ==> #[trigger] values::pieces(name@, ':')[j] != word@,
        decreases ranges@.len() - k,
    {
        let (a, b) = ranges[k];
        assert(ranges@[k as int].0 == all[k as int].0);
        assert(values::pieces(name@, ':')[k as int] == name@.subrange(a as int, b as int));
        if same_chars(slice_subrange(name, a, b), wanted.as_slice()) {
            return true;
        }
        k += 1;
    }
    assert(values::pieces(name@, ':').len() == all.len());
    false
}

/// The layers after an assignment to `BBLAYERS` with the values `values`.
pub open spec fn assigned_layers(
    layers: Seq<Seq<char>>,
    a: AssignmentView,
    values: Seq<Seq<char>>,
) -> Seq<Seq<char>> {
    if has_override(a.name, "remove"@) {
        without_paths(layers, values, 0)
    } else if has_override(a.name, "append"@) {
        layers + values
    } else if has_override(a.name, "prepend"@) {
        values + layers
    } else {
        match a.operator {
            AssignmentOperator::Assign => values,
            AssignmentOperator::Immediate => values,
            AssignmentOperator::Default => if layers.len() == 0 {
                values
            } else {
                layers
            },
            AssignmentOperator::WeakDefault => if layers.len() == 0 {
                values
            } else {
                layers
            },
            AssignmentOperator::AppendWithSpace => layers + values,
            AssignmentOperator::AppendWithoutSpace => layers + values,
            AssignmentOperator::PrependWithSpace => values + layers,
            AssignmentOperator::PrependWithoutSpace => values + layers,
        }
    }
}

/// The layers after the statements `s[k..]`.
pub open spec fn layers_from(
    e: BuildView,
    s: Seq<StatementView>,
    k: int,
    layers: Seq<Seq<char>>,
    steps: nat,
) -> LayerList
    decreases s.len() - k,
{
    if k < 0 || k >= s.len() {
        LayerList::Settled(layers)
    } else {
        match s[k] {
            StatementView::Assignment(a) => if values::first_piece(a.name, ':') == "BBLAYERS"@ {
                match layer_paths(e, a.value, steps) {
                    LayerList::Settled(values) => layers_from(
                        e,
                        s,
                        k + 1,
                        assigned_layers(layers, a, values),
                        steps,
                    ),
                    LayerList::Refused(message) => LayerList::Refused(message),
                    LayerList::Unsettled => LayerList::Unsettled,
                }
            } else {
                layers_from(e, s, k + 1, layers, steps)
            },
            _ => layers_from(e, s, k + 1, layers, steps),
        }
    }
}

/// The path of the layer configuration of a build.
pub open spec fn bblayers_path(e: BuildView) -> Seq<char> {
    paths::pushed_path(e.build_dir, "conf/bblayers.conf"@)
}

/// The layers that the layer configuration `source` of a build names.
pub open spec fn build_layers(e: BuildView, source: Seq<char>, steps: nat) -> LayerList {
    match syntax::nodes_of(source) {
        Err((at, fault)) => LayerList::Refused(
            "could not parse "@ + bblayers_path(e) + ": "@ + ("line "@ + numbers::decimal(
                (text::newline_count(source.take(at)) + 1) as nat,
            ) + ": "@ + tree::fault_message(fault)) + ""@,
        ),
        Ok(nodes) => match layers_from(e, statements::statements_of(source), 0, Seq::empty(), steps) {
            LayerList::Settled(layers) => if layers.len() == 0 {
                LayerList::Refused(
                    ""@ + bblayers_path(e)
                        + " does not contain a static non-empty BBLAYERS value"@,
                )
            } else {
                LayerList::Settled(layers)
            },
            LayerList::Refused(message) => LayerList::Refused(message),
            LayerList::Unsettled => LayerList::Unsettled,
        },
    }
}

fn joined_lists(first: &Vec<String>, second: &Vec<String>) -> (r: Vec<String>)
    ensures
        collections::string_texts(r@) == collections::string_texts(first@) + collections::string_texts(second@),
{
    let mut out = copy_strings(first);
    let mut more = copy_strings(second);
    let ghost a = out@;
    let ghost b = more@;
    out.append(&mut more);
    assert(collections::string_texts(out@) =~= collections::string_texts(a) + collections::string_texts(b));
    out
}

fn assign_layers(layers: Vec<String>, a: &AssignmentStatement, values: Vec<String>) -> (r: Vec<
    String,
>)
    ensures
        collections::string_texts(r@) == assigned_layers(collections::string_texts(layers@), a@, collections::string_texts(values@)),
{
    let name = a.name.as_slice();
    assert(collections::string_texts(layers@).len() == layers@.len());
    if names_override(name, "remove") {
        return remove_paths(&layers, &values);
    }
    if names_override(name, "append") {
        return joined_lists(&layers, &values);
    }
    if names_override(name, "prepend") {
        return joined_lists(&values, &layers);
    }
    match a.operator {
        AssignmentOperator::Assign => values,
        AssignmentOperator::Immediate => values,
        AssignmentOperator::Default => if layers.len() == 0 {
            values
        } else {
            layers
        },
        AssignmentOperator::WeakDefault => if layers.len() == 0 {
            values
        } else {
            layers
        },
        AssignmentOperator::AppendWithSpace => joined_lists(&layers, &values),
        AssignmentOperator::AppendWithoutSpace => joined_lists(&layers, &values),
        AssignmentOperator::PrependWithSpace => joined_lists(&values, &layers),
        AssignmentOperator::PrependWithoutSpace => joined_lists(&values, &layers),
    }
}

fn names_layers(name: &[char]) -> (r: bool)
    ensures
        r == (values::first_piece(name@, ':') == "BBLAYERS"@),
{
    let end = find_char(name, ':', 0);
    let first = slice_subrange(name, 0, end);
    assert(first@ =~= values::first_piece(name@, ':'));
    same_chars(first, chars_of("BBLAYERS").as_slice())
}

/// The layers that the layer configuration `source` of a build names, in the
/// order in which it names them; nothing where `steps` steps do not suffice to
/// replace the variables of an entry.
pub fn parse_build_layers(source: &str, environment: &BuildEnvironment, steps: usize) -> (r: Result<
    Option<Vec<String>>,
    String,
>)
    requires
        text::byte_len(source@) < usize::MAX,
        environment.wf(),
    ensures
        is_layer_list(r, build_layers(environment@, source@, steps as nat)),
{
    let path = push_path(environment.build_dir.as_str(), "conf/bblayers.conf");
    let tree = match parse(source) {
        Ok(tree) => tree,
        Err(error) => {
            let text = long_phrase(
                "could not parse ",
                chars_of(path.as_str()).as_slice(),
                ": ",
                chars_of(error.to_string().as_str()).as_slice(),
                "",
            );
            return Err(string_of(text.as_slice()));
        },
    };
    let statements = statements(&tree);
    let ghost all = statements::statement_views(statements@);
    let ghost goal = layers_from(environment@, all, 0, Seq::empty(), steps as nat);
    let mut layers: Vec<String> = Vec::new();
    let mut k: usize = 0;
    assert(collections::string_texts(layers@) =~= Seq::empty());
    assert(all == statements::statements_of(source@));
    while k < statements.len()
        invariant
            k <= statements@.len(),
            environment.wf(),
            syntax::nodes_of(source@) is Ok,
            all == statements::statement_views(statements@),
            all == statements::statements_of(source@),
            layers_from(environment@, all, k as int, collections::string_texts(layers@), steps as nat) == goal,
            goal == layers_from(environment@, all, 0, Seq::empty(), steps as nat),
        decreases statements@.len() - k,
    {
        assert(all[k as int] == statements@[k as int]@);
        if let Statement::Assignment(a) = &statements[k] {
            if names_layers(a.name.as_slice()) {
                match static_build_layer_paths(a.value.as_slice(), environment, steps) {
                    Err(message) => {
                        return Err(message);
                    },
                    Ok(None) => {
                        return Ok(None);
                    },
                    Ok(Some(values)) => {
                        layers = assign_layers(layers, a, values);
                    },
                }
            }
        }
        k += 1;
    }
    assert(collections::string_texts(layers@).len() == layers@.len());
    if layers.len() == 0 {
        let text = phrase(
            "",
            chars_of(path.as_str()).as_slice(),
            " does not contain a static non-empty BBLAYERS value",
        );
        return Err(string_of(text.as_slice()));
    }
    Ok(Some(layers))
}

/// What is known of a layer path.
pub struct LayerFacts {
    /// The canonical form; why there is none.
    pub canonical: Result<String, String>,
    /// Whether it holds `conf/layer.conf`.
    pub has_configuration: bool,
}

/// The canonical paths of the layers `layers[k..]`, behind `found`.
pub open spec fn resolved_from(
    layers: Seq<Seq<char>>,
    facts: Seq<LayerFacts>,
    k: int,
    found: Seq<Seq<char>>,
) -> LayerList
    decreases layers.len() - k,
{
    if k < 0 || k >= layers.len() {
        LayerList::Settled(found)
    } else {
        match facts[k].canonical {
            Err(error) => LayerList::Refused(
                "BBLAYERS entry "@ + layers[k] + " could not be resolved: "@ + error@ + ""@,
            ),
            Ok(path) => if !facts[k].has_configuration {
                LayerList::Refused(
                    "BBLAYERS entry "@ + path@ + " is not a layer with conf/layer.conf"@,
                )
            } else if found.contains(path@) {
                resolved_from(layers, facts, k + 1, found)
            } else {
                resolved_from(layers, facts, k + 1, found.push(path@))
            },
        }
    }
}

/// The canonical paths of layers, each once.
pub fn resolve_layers(layers: &Vec<String>, facts: &Vec<LayerFacts>) -> (r: Result<
    Vec<String>,
    String,
>)
    requires
        facts@.len() == layers@.len(),
    ensures
        match resolved_from(collections::string_texts(layers@), facts@, 0, Seq::empty()) {
            LayerList::Settled(paths) => r matches Ok(found) && collections::string_texts(found@) == paths,
            LayerList::Refused(message) => r matches Err(found) && found@ == message,
            LayerList::Unsettled => true,
        },
{
    let ghost all = collections::string_texts(layers@);
    let ghost goal = resolved_from(all, facts@, 0, Seq::empty());
    let mut out: Vec<String> = Vec::new();
    let mut k: usize = 0;
    assert(collections::string_texts(out@) =~= Seq::empty());
    while k < layers.len()
        invariant
            k <= layers@.len(),
            facts@.len() == layers@.len(),
            all == collections::string_texts(layers@),
            resolved_from(all, facts@, k as int, collections::string_texts(out@)) == goal,
            goal == resolved_from(all, facts@, 0, Seq::empty()),
        decreases layers@.len() - k,
    {
        assert(all[k as int] == layers@[k as int]@);
        match &facts[k].canonical {
            Err(error) => {
                let text = long_phrase(
                    "BBLAYERS entry ",
                    chars_of(layers[k].as_str()).as_slice(),
                    " could not be resolved: ",
                    chars_of(error.as_str()).as_slice(),
                    "",
                );
                return Err(string_of(text.as_slice()));
            },
            Ok(path) => {
                if !facts[k].has_configuration {
                    let text = phrase(
                        "BBLAYERS entry ",
                        chars_of(path.as_str()).as_slice(),
                        " is not a layer with conf/layer.conf",
                    );
                    return Err(string_of(text.as_slice()));
                }
                push_distinct(&mut out, path.clone());
            },
        }
        k += 1;
    }
    Ok(out)
}

// ---------------------------------------------------------------------------
// Metadata files
// ---------------------------------------------------------------------------
/// Where files are looked for.
#[derive(Clone, Copy, Debug, Eq, PartialEq, Structural)]
pub enum MetadataTree {
    Layer,
    Build,
}

/// The extensions of metadata files.
pub open spec fn metadata_extension(extension: Seq<char>) -> bool {
    extension == "bb"@ || extension == "bbappend"@ || extension == "bbclass"@ || extension
        == "conf"@ || extension == "inc"@
}

/// A path is by its extension that of a metadata file.
pub open spec fn looks_like_metadata(path: Seq<char>) -> bool {
    paths::extension(path) matches Some(found) && metadata_extension(found)
}

/// Whether a path is by its extension that of a metadata file.
pub fn is_metadata_path(path: &str) -> (r: bool)
    ensures
        r == looks_like_metadata(path@),
{
    match path_extension(path) {
        Some(found) => {
            let word = found.as_str();
            same_str(word, "bb") || same_str(word, "bbappend") || same_str(word, "bbclass")
                || same_str(word, "conf") || same_str(word, "inc")
        },
        None => false,
    }
}

/// The part of a path below `root`, or the path where it is not below it.
pub open spec fn below_root(path: Seq<char>, root: Seq<char>) -> Seq<char> {
    match paths::relative_path(path, root) {
        Some(relative) => relative,
        None => path,
    }
}

/// Those of the directories `above[k..]` that are named `conf`.
pub open spec fn conf_directories(above: Seq<Seq<char>>, k: int) -> Seq<Seq<char>>
    decreases above.len() - k,
{
    if k < 0 || k >= above.len() {
        Seq::empty()
    } else if paths::file_name(above[k]) == Some("conf"@) {
        seq![above[k]] + conf_directories(above, k + 1)
    } else {
        conf_directories(above, k + 1)
    }
}

/// The directories at and above a path that are named `conf`, nearest first.
pub fn configuration_directories(path: &str) -> (r: Vec<String>)
    ensures
        collections::string_texts(r@) == conf_directories(paths::ancestors(path@), 0),
{
    let above = path_ancestors(path);
    let ghost all = collections::string_texts(above@);
    let ghost goal = conf_directories(all, 0);
    let mut out: Vec<String> = Vec::new();
    let mut k: usize = 0;
    assert(collections::string_texts(out@) + goal =~= goal);
    while k < above.len()
        invariant
            k <= above@.len(),
            all == collections::string_texts(above@),
            collections::string_texts(out@) + conf_directories(all, k as int) == goal,
        decreases above@.len() - k,
    {
        assert(all[k as int] == above@[k as int]@);
        let named = match path_file_name(above[k].as_str()) {
            Some(name) => same_str(name.as_str(), "conf"),
            None => false,
        };
        if named {
            let ghost before = collections::string_texts(out@);
            push_text(&mut out, above[k].clone());
            proof {
                let rest = conf_directories(all, k + 1);
                assert(before + (seq![all[k as int]] + rest) =~= before.push(all[k as int]) + rest);
            }
        }
        k += 1;
    }
    assert(collections::string_texts(out@) + Seq::<Seq<char>>::empty() =~= collections::string_texts(out@));
    out
}

/// One of two lists has an item of the other.
pub open spec fn overlap(a: Seq<Seq<char>>, b: Seq<Seq<char>>) -> bool {
    exists|k: int| 0 <= k < a.len() && b.contains(#[trigger] a[k])
}

fn lists_overlap(a: &Vec<String>, b: &Vec<String>) -> (r: bool)
    ensures
        r == overlap(collections::string_texts(a@), collections::string_texts(b@)),
{
    let ghost all = collections::string_texts(a@);
    let mut k: usize = 0;
    while k < a.len()
        invariant
            k <= a@.len(),
            all == collections::string_texts(a@),
            forall|j: int| 0 <= j < k ==> !collections::string_texts(b@).contains(#[trigger] all[j]),
        decreases a@.len() - k,
    {
        assert(all[k as int] == a@[k as int]@);
        if has_text(b, a[k].as_str()) {
            assert(collections::string_texts(b@).contains(all[k as int]));
            return true;
        }
        k += 1;
    }
    false
}

/// A file is metadata of a tree: `configured` are the directories that hold a
/// file `layer.conf`.
pub open spec fn workspace_metadata(
    path: Seq<char>,
    root: Seq<char>,
    tree: MetadataTree,
    configured: Seq<Seq<char>>,
) -> bool {
    &&& looks_like_metadata(path)
    &&& !paths::path_parts(below_root(path, root)).contains("files"@)
    &&& tree == MetadataTree::Build || paths::extension(path) != Some("conf"@) || overlap(
        conf_directories(paths::ancestors(path), 0),
        configured,
    )
}

/// Whether a file is metadata of a tree: `configured` are those of its
/// [`configuration_directories`] that hold a file `layer.conf`.
pub fn is_workspace_metadata_file(
    path: &str,
    root: &str,
    tree: MetadataTree,
    configured: &Vec<String>,
) -> (r: bool)
    ensures
        r == workspace_metadata(path@, root@, tree, collections::string_texts(configured@)),
{
    if !is_metadata_path(path) {
        return false;
    }
    let relative = match strip_root(path, root) {
        Some(relative) => relative,
        None => path.to_owned(),
    };
    if has_part(relative.as_str(), "files") {
        return false;
    }
    if tree == MetadataTree::Build || !has_extension(path, "conf") {
        return true;
    }
    lists_overlap(&configuration_directories(path), configured)
}

/// Whether metadata is looked for in a directory.
pub fn enters_directory(path: &str) -> (r: bool)
    ensures
        r == (paths::file_name(path@) != Some("files"@)),
{
    match path_file_name(path) {
        Some(name) => !same_str(name.as_str(), "files"),
        None => true,
    }
}

/// Where metadata is looked for.
pub fn metadata_start(root: &str, tree: MetadataTree) -> (r: String)
    ensures
        r@ == (match tree {
            MetadataTree::Layer => root@,
            MetadataTree::Build => paths::pushed_path(root@, "conf"@),
        }),
{
    match tree {
        MetadataTree::Layer => root.to_owned(),
        MetadataTree::Build => push_path(root, "conf"),
    }
}

/// A file is one that is formatted or linted when `root` is given: `configured`
/// are the directories that hold a file `layer.conf`.
pub open spec fn input_metadata(
    path: Seq<char>,
    root: Seq<char>,
    configured: Seq<Seq<char>>,
) -> bool {
    &&& looks_like_metadata(path)
    &&& paths::file_name(root) != Some("files"@)
    &&& !paths::path_parts(below_root(path, root)).contains("files"@)
    &&& paths::extension(path) != Some("conf"@) || overlap(
        conf_directories(paths::ancestors(path).skip(1), 0),
        configured,
    )
}

/// Whether a file is one that is formatted or linted when `root` is given:
/// `configured` are those of the [`configuration_directories`] above it that
/// hold a file `layer.conf`.
pub fn is_bitbake_file(path: &str, root: &str, configured: &Vec<String>) -> (r: bool)
    ensures
        r == input_metadata(path@, root@, collections::string_texts(configured@)),
{
    if !is_metadata_path(path) {
        return false;
    }
    if let Some(name) = path_file_name(root) {
        if same_str(name.as_str(), "files") {
            return false;
        }
    }
    let relative = match strip_root(path, root) {
        Some(relative) => relative,
        None => path.to_owned(),
    };
    if has_part(relative.as_str(), "files") {
        return false;
    }
    if !has_extension(path, "conf") {
        return true;
    }
    match parent_path(path) {
        Some(above) => {
            proof {
                assert(paths::ancestors(path@).skip(1) =~= paths::ancestors(above@));
            }
            lists_overlap(&configuration_directories(above.as_str()), configured)
        },
        None => {
            assert(paths::ancestors(path@).skip(1) =~= Seq::empty());
            false
        },
    }
}

/// The pieces of a name without a colon, and of one with a single colon.
proof fn lemma_name_pieces(base: Seq<char>, word: Seq<char>)
    requires
        !base.contains(':'),
        !word.contains(':'),
    ensures
        forall|w: Seq<char>| !has_override(base, w),
        forall|w: Seq<char>| has_override(base + seq![':'] + word, w) <==> w == word,
        values::first_piece(base, ':') == base,
        values::first_piece(base + seq![':'] + word, ':') == base,
{
    let n = base.len() as int;
    text::lemma_find_unique(base, ':', 0, n);
    assert(values::pieces(base, ':').len() == 1);
    let name = base + seq![':'] + word;
    let size = name.len() as int;
    assert forall|k: int| 0 <= k < n implies #[trigger] name[k] != ':' by {
        assert(base[k] == name[k]);
    }
    text::lemma_find_unique(name, ':', 0, n);
    assert forall|k: int| n + 1 <= k < size implies #[trigger] name[k] != ':' by {
        assert(word[k - n - 1] == name[k]);
    }
    text::lemma_find_unique(name, ':', n + 1, size);
    assert(values::pieces_from(name, ':', n + 1) == seq![(n + 1, size)]);
    assert(values::pieces_of(name, ':') =~= seq![(0int, n), (n + 1, size)]);
    assert(values::pieces(name, ':').len() == 2);
    assert(values::pieces(name, ':')[1] == name.subrange(n + 1, size));
    assert(name.subrange(n + 1, size) =~= word);
    assert(name.take(n) =~= base);
    assert(base.take(n) =~= base);
}

proof fn lemma_without_paths(items: Seq<Seq<char>>, removed: Seq<Seq<char>>, k: int)
    requires
        0 <= k <= items.len(),
    ensures
        forall|path: Seq<char>|
            #[trigger] without_paths(items, removed, k).contains(path) <==> !has_path(removed, path)
                && items.skip(k).contains(path),
    decreases items.len() - k,
{
    let rest = items.skip(k);
    if k < items.len() {
        lemma_without_paths(items, removed, k + 1);
        let next = items.skip(k + 1);
        let out = without_paths(items, removed, k);
        let tail = without_paths(items, removed, k + 1);
        assert forall|path: Seq<char>| #[trigger] out.contains(path) <==> !has_path(removed, path)
            && rest.contains(path) by {
            assert(tail.contains(path) <==> !has_path(removed, path) && next.contains(path));
            if rest.contains(path) {
                let i = choose|i: int| 0 <= i < rest.len() && rest[i] == path;
                if i > 0 {
                    assert(next[i - 1] == path);
                }
            }
            if next.contains(path) {
                let i = choose|i: int| 0 <= i < next.len() && next[i] == path;
                assert(rest[i + 1] == path);
            }
            if tail.contains(path) {
                let i = choose|i: int| 0 <= i < tail.len() && tail[i] == path;
                if out != tail {
                    assert(out[i + 1] == path);
                }
            }
            if out.contains(path) {
                let i = choose|i: int| 0 <= i < out.len() && out[i] == path;
                if out != tail && i > 0 {
                    assert(tail[i - 1] == path);
                }
            }
            assert(rest[0] == items[k]);
            if !has_path(removed, items[k]) {
                assert(out[0] == items[k]);
            }
        }
    } else {
        assert(rest.len() == 0);
    }
}

/// One more statement is applied to the layers of those before it.
proof fn lemma_layers_extended(
    e: BuildView,
    s: Seq<StatementView>,
    k: int,
    start: Seq<Seq<char>>,
    steps: nat,
    last: StatementView,
)
    requires
        0 <= k <= s.len(),
        layers_from(e, s, k, start, steps) is Settled,
    ensures
        layers_from(e, s.push(last), k, start, steps) == layers_from(
            e,
            seq![last],
            0,
            layers_from(e, s, k, start, steps)->Settled_0,
            steps,
        ),
    decreases s.len() - k,
{
    let all = s.push(last);
    if k < s.len() {
        assert(all[k] == s[k]);
        match s[k] {
            StatementView::Assignment(a) => if values::first_piece(a.name, ':') == "BBLAYERS"@ {
                let values = layer_paths(e, a.value, steps)->Settled_0;
                lemma_layers_extended(e, s, k + 1, assigned_layers(start, a, values), steps, last);
            } else {
                lemma_layers_extended(e, s, k + 1, start, steps, last);
            },
            _ => {
                lemma_layers_extended(e, s, k + 1, start, steps, last);
            },
        }
    } else {
        assert(all[k] == last);
        assert(seq![last][0] == last);
        assert(layers_from(e, all, k + 1, start, steps) == LayerList::Settled(start));
        match last {
            StatementView::Assignment(a) => if values::first_piece(a.name, ':') == "BBLAYERS"@ {
                if let LayerList::Settled(values) = layer_paths(e, a.value, steps) {
                    let next = assigned_layers(start, a, values);
                    assert(layers_from(e, all, k + 1, next, steps) == LayerList::Settled(next));
                    assert(layers_from(e, seq![last], 1, next, steps) == LayerList::Settled(next));
                }
            } else {
                assert(layers_from(e, seq![last], 1, start, steps) == LayerList::Settled(start));
            },
            _ => {
                assert(layers_from(e, seq![last], 1, start, steps) == LayerList::Settled(start));
            },
        }
    }
}

/// What one more assignment to `BBLAYERS` does to the layers `before` it, where
/// it names the layers `named`: `=` and `:=` replace them, `?=` and `??=` count
/// only where there are none, `+=`, `.=` and `:append` put the named layers
/// behind them, `=+`, `=.` and `:prepend` in front of them, and `:remove` takes
/// the named ones away and keeps the others. No other assignment loses a layer,
/// and a statement that is no assignment to `BBLAYERS` changes nothing.
pub proof fn law_layers_after_an_assignment(
    e: BuildView,
    s: Seq<StatementView>,
    before: Seq<Seq<char>>,
    a: AssignmentView,
    named: Seq<Seq<char>>,
    steps: nat,
)
    requires
        layers_from(e, s, 0, Seq::empty(), steps) == LayerList::Settled(before),
        layer_paths(e, a.value, steps) == LayerList::Settled(named),
    ensures
        ({
            let all = s.push(StatementView::Assignment(a));
            let after = layers_from(e, all, 0, Seq::empty(), steps)->Settled_0;
            let plain = a.name == "BBLAYERS"@;
            let appended = a.name == "BBLAYERS:append"@;
            let prepended = a.name == "BBLAYERS:prepend"@;
            let removed = a.name == "BBLAYERS:remove"@;
            &&& layers_from(e, all, 0, Seq::empty(), steps) is Settled
            &&& plain && (a.operator == AssignmentOperator::Assign || a.operator
                == AssignmentOperator::Immediate) ==> after == named
            &&& plain && (a.operator == AssignmentOperator::Default || a.operator
                == AssignmentOperator::WeakDefault) ==> after == if before.len() > 0 {
                before
            } else {
                named
            }
            &&& (plain && (a.operator == AssignmentOperator::AppendWithSpace || a.operator
                == AssignmentOperator::AppendWithoutSpace)) || appended ==> after == before + named
            &&& (plain && (a.operator == AssignmentOperator::PrependWithSpace || a.operator
                == AssignmentOperator::PrependWithoutSpace)) || prepended ==> after == named
                + before
            &&& removed ==> forall|layer: Seq<char>|
                #[trigger] after.contains(layer) <==> before.contains(layer) && !has_path(
                    named,
                    layer,
                )
            &&& !(plain && (a.operator == AssignmentOperator::Assign || a.operator
                == AssignmentOperator::Immediate)) && (plain || appended || prepended)
                ==> forall|layer: Seq<char>|
                before.contains(layer) ==> #[trigger] after.contains(layer)
            &&& values::first_piece(a.name, ':') != "BBLAYERS"@ ==> after == before
        }),
{
    reveal_strlit("BBLAYERS");
    reveal_strlit("BBLAYERS:append");
    reveal_strlit("BBLAYERS:prepend");
    reveal_strlit("BBLAYERS:remove");
    reveal_strlit("append");
    reveal_strlit("prepend");
    reveal_strlit("remove");
    let base = "BBLAYERS"@;
    assert("BBLAYERS:append"@ =~= base + seq![':'] + "append"@);
    assert("BBLAYERS:prepend"@ =~= base + seq![':'] + "prepend"@);
    assert("BBLAYERS:remove"@ =~= base + seq![':'] + "remove"@);
    lemma_name_pieces(base, "append"@);
    lemma_name_pieces(base, "prepend"@);
    lemma_name_pieces(base, "remove"@);
    assert("append"@.len() == 6 && "prepend"@.len() == 7 && "remove"@.len() == 6);
    assert("append"@[0] == 'a' && "remove"@[0] == 'r');
    let last = StatementView::Assignment(a);
    lemma_layers_extended(e, s, 0, Seq::empty(), steps, last);
    let next = assigned_layers(before, a, named);
    assert(layers_from(e, seq![last], 1, next, steps) == LayerList::Settled(next));
    assert(layers_from(e, seq![last], 1, before, steps) == LayerList::Settled(before));
    lemma_without_paths(before, named, 0);
    assert(before.skip(0) =~= before);
    assert forall|layer: Seq<char>| before.contains(layer) implies #[trigger] (before + named).contains(
        layer,
    ) && (named + before).contains(layer) by {
        let i = choose|i: int| 0 <= i < before.len() && before[i] == layer;
        assert((before + named)[i] == layer);
        assert((named + before)[named.len() + i] == layer);
    }
    let after = layers_from(e, s.push(last), 0, Seq::empty(), steps)->Settled_0;
    if before.len() == 0 {
        assert(forall|layer: Seq<char>| !before.contains(layer));
    }
    if after == named + before {
        assert forall|layer: Seq<char>| before.contains(layer) implies #[trigger] after.contains(
            layer,
        ) by {
            assert((before + named).contains(layer));
        }
    }
}

/// The layers of a build are those that its statements leave, one after the
/// other; a configuration that leaves none is refused.
pub proof fn law_build_layers_are_what_the_statements_leave(
    e: BuildView,
    source: Seq<char>,
    steps: nat,
    layers: Seq<Seq<char>>,
)
    requires
        syntax::nodes_of(source) is Ok,
        layers_from(e, statements::statements_of(source), 0, Seq::empty(), steps)
            == LayerList::Settled(layers),
    ensures
        layers.len() > 0 ==> build_layers(e, source, steps) == LayerList::Settled(layers),
        layers.len() == 0 ==> build_layers(e, source, steps) is Refused,
{
}

} // verus!
