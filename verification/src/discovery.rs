//! Which texts the arguments of a command name.
use crate::build_layers;
use crate::collections;
use crate::config;
use crate::inputs;
use crate::orders;
use crate::checks::long_phrase;
use crate::collections::push_text;
use crate::config::Config;
use crate::config::ConfigView;
use crate::inputs::InputKind;
use crate::inputs::InputStep;
use crate::inputs::accept_entry;
use crate::inputs::accept_input;
use crate::inputs::reads_stdin;
use crate::orders::TextOrder;
use crate::orders::sort_distinct;
use crate::text::chars_of;
use crate::text::same_str;
use crate::text::string_of;
use crate::workspace::PathTable;
use vstd::prelude::*;

verus! {

// ---------------------------------------------------------------------------
// The file system
// ---------------------------------------------------------------------------
/// One source of text.
#[derive(Clone, Debug, Eq, PartialEq)]
pub enum Input {
    /// Standard input.
    Stdin,
    /// The file at a path.
    File(String),
}

pub enum InputView {
    Stdin,
    File(Seq<char>),
}

impl Input {
    pub open spec fn view(&self) -> InputView {
        match self {
            Input::Stdin => InputView::Stdin,
            Input::File(path) => InputView::File(path@),
        }
    }

    /// Whether it is standard input.
    pub fn is_stdin(&self) -> (r: bool)
        ensures
            r == (self@ == InputView::Stdin),
    {
        match self {
            Input::Stdin => true,
            Input::File(_) => false,
        }
    }

    /// The path of a file.
    pub fn path(&self) -> (r: Option<String>)
        ensures
            match self@ {
                InputView::Stdin => r is None,
                InputView::File(path) => r matches Some(text) && text@ == path,
            },
    {
        match self {
            Input::Stdin => None,
            Input::File(path) => Some(path.clone()),
        }
    }
}

/// The contents of a list of inputs.
pub open spec fn input_views(items: Seq<Input>) -> Seq<InputView> {
    items.map_values(|i: Input| i@)
}

/// Files as inputs.
pub open spec fn file_inputs(paths: Seq<Seq<char>>) -> Seq<InputView> {
    paths.map_values(|path: Seq<char>| InputView::File(path))
}

/// What is at a path.
pub struct InputEntry {
    pub path: String,
    /// What it is; why that is not known.
    pub kind: Result<InputKind, String>,
    /// Those of the [`crate::build_layers::configuration_directories`] above it
    /// that hold a file `layer.conf`.
    pub configured: Vec<String>,
    /// What is in a directory, in the order of the names; why it cannot be read.
    pub entries: Result<Vec<InputEntry>, String>,
}

/// What is known of the file system. A path that is not listed is not there;
/// below a path that the configuration leaves out nothing need be known.
pub struct InputProbe {
    pub current_dir: Option<String>,
    /// The canonical forms of absolute paths.
    pub table: PathTable,
    pub found: Vec<InputEntry>,
}

/// The first of `items[k..]` for a path.
pub open spec fn entry_from(items: Seq<InputEntry>, path: Seq<char>, k: int) -> Option<InputEntry>
    decreases items.len() - k,
{
    if k < 0 || k >= items.len() {
        None
    } else if items[k].path@ == path {
        Some(items[k])
    } else {
        entry_from(items, path, k + 1)
    }
}

// ---------------------------------------------------------------------------
// Exclusions
// ---------------------------------------------------------------------------
/// The configuration leaves a path out.
pub open spec fn left_out(c: ConfigView, p: InputProbe, path: Seq<char>) -> bool {
    config::excluded(c, path, collections::optional_text(p.current_dir), p.table@)
}

/// Whether a path is left out does not depend on the platform.
pub open spec fn decided(c: ConfigView, p: InputProbe, path: Seq<char>) -> bool {
    config::all_portable(c.excludes) && (config::path_below(
        c,
        path,
        collections::optional_text(p.current_dir),
        p.table@,
    ) matches Some(below) ==> config::portable(below))
}

/// Whether one of `entries[k..]` or of what is below them is left out does not
/// depend on the platform.
pub open spec fn decided_from(
    c: ConfigView,
    p: InputProbe,
    entries: Seq<InputEntry>,
    k: int,
) -> bool
    decreases entries, entries.len() - k,
{
    if k < 0 || k >= entries.len() {
        true
    } else {
        &&& decided(c, p, entries[k].path@)
        &&& (match entries[k].entries {
            Ok(inner) => decided_from(c, p, inner@, 0),
            Err(_) => true,
        })
        &&& decided_from(c, p, entries, k + 1)
    }
}

/// None of the paths is left out, as far as that does not depend on the platform.
pub open spec fn none_left_out(c: ConfigView, p: InputProbe, paths: Seq<Seq<char>>) -> bool {
    forall|k: int|
        0 <= k < paths.len() && decided(c, p, paths[k]) ==> !left_out(c, p, #[trigger] paths[k])
}

// ---------------------------------------------------------------------------
// The files
// ---------------------------------------------------------------------------
/// What is said of a path of which nothing is known.
pub open spec fn uninspected(path: Seq<char>, error: Seq<char>) -> Seq<char> {
    "could not inspect "@ + path + ": "@ + error + ""@
}

/// What is said of a directory that cannot be read.
pub open spec fn unread(path: Seq<char>, error: Seq<char>) -> Seq<char> {
    "could not read directory "@ + path + ": "@ + error + ""@
}

/// `found` with the files that `entries[k..]` of a directory below `root` give;
/// why they cannot be told.
pub open spec fn gathered(
    c: ConfigView,
    p: InputProbe,
    entries: Seq<InputEntry>,
    root: Seq<char>,
    k: int,
    found: Seq<Seq<char>>,
) -> Result<Seq<Seq<char>>, Seq<char>>
    decreases entries, entries.len() - k,
{
    if k < 0 || k >= entries.len() {
        Ok(found)
    } else {
        let path = entries[k].path@;
        if left_out(c, p, path) {
            gathered(c, p, entries, root, k + 1, found)
        } else {
            match entries[k].kind {
                Err(error) => Err(uninspected(path, error@)),
                Ok(kind) => if kind == InputKind::Directory {
                    match entries[k].entries {
                        Err(error) => Err(unread(path, error@)),
                        Ok(inner) => match gathered(c, p, inner@, root, 0, found) {
                            Err(fault) => Err(fault),
                            Ok(more) => gathered(c, p, entries, root, k + 1, more),
                        },
                    }
                } else if kind == InputKind::File && build_layers::input_metadata(
                    path,
                    root,
                    collections::string_texts(entries[k].configured@),
                ) {
                    gathered(c, p, entries, root, k + 1, found.push(path))
                } else {
                    gathered(c, p, entries, root, k + 1, found)
                },
            }
        }
    }
}

/// `found` with the files that the paths `paths[k..]` give; why they cannot be
/// told.
pub open spec fn named_files(
    c: ConfigView,
    p: InputProbe,
    paths: Seq<Seq<char>>,
    k: int,
    found: Seq<Seq<char>>,
) -> Result<Seq<Seq<char>>, Seq<char>>
    decreases paths.len() - k,
{
    if k < 0 || k >= paths.len() {
        Ok(found)
    } else {
        match entry_from(p.found@, paths[k], 0) {
            None => Err(uninspected(paths[k], "entity not found"@)),
            Some(entry) => match entry.kind {
                Err(error) => Err(uninspected(paths[k], error@)),
                Ok(kind) => match inputs::given_step(paths[k], left_out(c, p, paths[k]), kind) {
                    Err(fault) => Err(fault),
                    Ok(InputStep::Skip) => named_files(c, p, paths, k + 1, found),
                    Ok(InputStep::Take) => named_files(c, p, paths, k + 1, found.push(paths[k])),
                    Ok(InputStep::Walk) => match entry.entries {
                        Err(error) => Err(unread(paths[k], error@)),
                        Ok(inner) => match gathered(c, p, inner@, paths[k], 0, found) {
                            Err(fault) => Err(fault),
                            Ok(more) => named_files(c, p, paths, k + 1, more),
                        },
                    },
                },
            },
        }
    }
}

/// The files that paths name, in order, each once; why they cannot be told.
pub open spec fn files_of(c: ConfigView, p: InputProbe, paths: Seq<Seq<char>>) -> Result<
    Seq<Seq<char>>,
    Seq<char>,
> {
    match named_files(c, p, paths, 0, Seq::empty()) {
        Err(fault) => Err(fault),
        Ok(found) => if found.len() == 0 {
            Err("no BitBake files found in the supplied directories"@)
        } else {
            Ok(orders::sorted_distinct(TextOrder::Path, found))
        },
    }
}

impl InputProbe {
    pub open spec fn wf(&self) -> bool {
        self.table.wf()
    }

    fn find(&self, path: &str) -> (r: Option<usize>)
        ensures
            match r {
                Some(k) => k < self.found@.len() && self.found@[k as int].path@ == path@
                    && entry_from(self.found@, path@, 0) == Some(self.found@[k as int]),
                None => entry_from(self.found@, path@, 0) is None,
            },
    {
        let mut k: usize = 0;
        while k < self.found.len()
            invariant
                k <= self.found@.len(),
                entry_from(self.found@, path@, k as int) == entry_from(self.found@, path@, 0),
            decreases self.found@.len() - k,
        {
            if same_str(self.found[k].path.as_str(), path) {
                return Some(k);
            }
            k += 1;
        }
        None
    }

    /// Whether the configuration leaves a path out.
    fn leaves_out(&self, config: &Config, path: &str) -> (r: bool)
        requires
            self.wf(),
        ensures
            decided(config@, *self, path@) ==> r == left_out(config@, *self, path@),
    {
        config.is_excluded(path, &self.current_dir, &self.table)
    }
}

fn inspection_failure(path: &str, error: &str) -> (r: String)
    ensures
        r@ == uninspected(path@, error@),
{
    let text = long_phrase(
        "could not inspect ",
        chars_of(path).as_slice(),
        ": ",
        chars_of(error).as_slice(),
        "",
    );
    string_of(text.as_slice())
}

fn directory_failure(path: &str, error: &str) -> (r: String)
    ensures
        r@ == unread(path@, error@),
{
    let text = long_phrase(
        "could not read directory ",
        chars_of(path).as_slice(),
        ": ",
        chars_of(error).as_slice(),
        "",
    );
    string_of(text.as_slice())
}

/// Adds the files that the entries of a directory below `root` give.
fn gather(
    config: &Config,
    probe: &InputProbe,
    entries: &Vec<InputEntry>,
    root: &str,
    found: &mut Vec<String>,
) -> (r: Result<(), String>)
    requires
        probe.wf(),
        none_left_out(config@, *probe, collections::string_texts(old(found)@)),
    ensures
        none_left_out(config@, *probe, collections::string_texts(final(found)@)),
        decided_from(config@, *probe, entries@, 0) ==> match gathered(
            config@,
            *probe,
            entries@,
            root@,
            0,
            collections::string_texts(old(found)@),
        ) {
            Ok(files) => r is Ok && collections::string_texts(final(found)@) == files,
            Err(fault) => r matches Err(message) && message@ == fault,
        },
    decreases entries@,
{
    let ghost sure = decided_from(config@, *probe, entries@, 0);
    let ghost goal = gathered(
        config@,
        *probe,
        entries@,
        root@,
        0,
        collections::string_texts(found@),
    );
    let mut k: usize = 0;
    while k < entries.len()
        invariant
            k <= entries@.len(),
            probe.wf(),
            none_left_out(config@, *probe, collections::string_texts(found@)),
            sure == decided_from(config@, *probe, entries@, 0),
            goal == gathered(
                config@,
                *probe,
                entries@,
                root@,
                0,
                collections::string_texts(old(found)@),
            ),
            sure ==> decided_from(config@, *probe, entries@, k as int),
            sure ==> goal == gathered(
                config@,
                *probe,
                entries@,
                root@,
                k as int,
                collections::string_texts(found@),
            ),
        decreases entries@.len() - k,
    {
        let entry = &entries[k];
        let path = entry.path.as_str();
        if !probe.leaves_out(config, path) {
            let kind = match &entry.kind {
                Ok(kind) => *kind,
                Err(error) => {
                    return Err(inspection_failure(path, error.as_str()));
                },
            };
            match accept_entry(path, root, false, kind, &entry.configured) {
                InputStep::Skip => {},
                InputStep::Take => {
                    let ghost before = collections::string_texts(found@);
                    push_text(found, entry.path.clone());
                    assert(none_left_out(config@, *probe, before.push(path@)));
                },
                InputStep::Walk => {
                    let inner = match &entry.entries {
                        Ok(inner) => inner,
                        Err(error) => {
                            return Err(directory_failure(path, error.as_str()));
                        },
                    };
                    if let Err(error) = gather(config, probe, inner, root, found) {
                        return Err(error);
                    }
                },
            }
        }
        k += 1;
    }
    Ok(())
}

proof fn lemma_decided_at(
    c: ConfigView,
    p: InputProbe,
    entries: Seq<InputEntry>,
    k: int,
    i: int,
)
    requires
        0 <= k <= i < entries.len(),
        decided_from(c, p, entries, k),
    ensures
        decided(c, p, entries[i].path@),
        entries[i].entries matches Ok(inner) ==> decided_from(c, p, inner@, 0),
    decreases i - k,
{
    if k < i {
        lemma_decided_at(c, p, entries, k + 1, i);
    }
}

/// The files that paths name.
fn gather_named(config: &Config, probe: &InputProbe, paths: &Vec<String>) -> (r: Result<
    Vec<String>,
    String,
>)
    requires
        probe.wf(),
    ensures
        r matches Ok(found) ==> none_left_out(
            config@,
            *probe,
            collections::string_texts(found@),
        ),
        decided_from(config@, *probe, probe.found@, 0) ==> match named_files(
            config@,
            *probe,
            collections::string_texts(paths@),
            0,
            Seq::empty(),
        ) {
            Ok(files) => r matches Ok(found) && collections::string_texts(found@) == files,
            Err(fault) => r matches Err(message) && message@ == fault,
        },
{
    let ghost sure = decided_from(config@, *probe, probe.found@, 0);
    let ghost all = collections::string_texts(paths@);
    let ghost goal = named_files(config@, *probe, all, 0, Seq::empty());
    let mut found: Vec<String> = Vec::new();
    let mut k: usize = 0;
    assert(collections::string_texts(found@) =~= Seq::empty());
    while k < paths.len()
        invariant
            k <= paths@.len(),
            probe.wf(),
            all == collections::string_texts(paths@),
            sure == decided_from(config@, *probe, probe.found@, 0),
            goal == named_files(config@, *probe, all, 0, Seq::empty()),
            none_left_out(config@, *probe, collections::string_texts(found@)),
            sure ==> goal == named_files(
                config@,
                *probe,
                all,
                k as int,
                collections::string_texts(found@),
            ),
        decreases paths@.len() - k,
    {
        let path = paths[k].as_str();
        assert(all[k as int] == path@);
        let entry = match probe.find(path) {
            Some(at) => {
                proof {
                    if sure {
                        lemma_decided_at(config@, *probe, probe.found@, 0, at as int);
                    }
                }
                &probe.found[at]
            },
            None => {
                return Err(inspection_failure(path, "entity not found"));
            },
        };
        let kind = match &entry.kind {
            Ok(kind) => *kind,
            Err(error) => {
                return Err(inspection_failure(path, error.as_str()));
            },
        };
        let excluded = probe.leaves_out(config, path);
        match accept_input(path, excluded, kind) {
            Err(error) => {
                return Err(error);
            },
            Ok(InputStep::Skip) => {},
            Ok(InputStep::Take) => {
                let ghost before = collections::string_texts(found@);
                push_text(&mut found, paths[k].clone());
                assert(none_left_out(config@, *probe, before.push(path@)));
            },
            Ok(InputStep::Walk) => {
                let inner = match &entry.entries {
                    Ok(inner) => inner,
                    Err(error) => {
                        return Err(directory_failure(path, error.as_str()));
                    },
                };
                if let Err(error) = gather(config, probe, inner, path, &mut found) {
                    return Err(error);
                }
            },
        }
        k += 1;
    }
    Ok(found)
}

// ---------------------------------------------------------------------------
// Inputs
// ---------------------------------------------------------------------------
/// Files that may be read: at least one, in strictly increasing order, none of
/// them left out.
pub open spec fn is_file_list(c: ConfigView, p: InputProbe, files: Seq<Seq<char>>) -> bool {
    &&& files.len() > 0
    &&& orders::strictly_sorted(TextOrder::Path, files)
    &&& none_left_out(c, p, files)
}

proof fn lemma_file_list(c: ConfigView, p: InputProbe, found: Seq<Seq<char>>)
    requires
        found.len() > 0,
        none_left_out(c, p, found),
    ensures
        is_file_list(c, p, orders::sorted_distinct(TextOrder::Path, found)),
{
    let files = orders::sorted_distinct(TextOrder::Path, found);
    orders::law_sorting_keeps_the_texts(TextOrder::Path, found);
    assert(found.contains(found[0]));
    assert(files.contains(found[0]));
    assert forall|k: int| 0 <= k < files.len() && decided(c, p, files[k]) implies !left_out(
        c,
        p,
        #[trigger] files[k],
    ) by {
        assert(files.contains(files[k]));
        let i = choose|i: int| 0 <= i < found.len() && found[i] == files[k];
        assert(!left_out(c, p, found[i]));
    }
}

proof fn lemma_stdin_counted(paths: Seq<Seq<char>>, k: int)
    requires
        0 <= k <= paths.len(),
    ensures
        inputs::stdin_count(paths, k) > 0 <==> exists|i: int|
            k <= i < paths.len() && #[trigger] paths[i] == "-"@,
    decreases paths.len() - k,
{
    if k < paths.len() {
        lemma_stdin_counted(paths, k + 1);
        if paths[k] == "-"@ {
            assert(paths[k] == "-"@);
        }
    }
}

/// The texts that the arguments of a command name, as far as `probe` knows the
/// file system. A lone `-` is standard input and cannot be combined with
/// anything. Otherwise the texts are files, in order of their paths and each
/// once: the files that are given, and below directories those that are
/// metadata. Links are refused, and what the configuration leaves out is left
/// out.
pub fn resolve_inputs(paths: &Vec<String>, config: &Config, probe: &InputProbe) -> (r: Result<
    Vec<Input>,
    String,
>)
    requires
        probe.wf(),
    ensures
        collections::string_texts(paths@) == seq!["-"@] ==> (r matches Ok(found) && input_views(
            found@,
        ) == seq![InputView::Stdin]),
        collections::string_texts(paths@).contains("-"@) && paths@.len() > 1 ==> r is Err,
        match inputs::stdin_choice(collections::string_texts(paths@)) {
            Err(fault) => r matches Err(message) && message@ == fault,
            Ok(true) => r matches Ok(found) && input_views(found@) == seq![InputView::Stdin],
            Ok(false) => {
                &&& r matches Ok(found) ==> exists|files: Seq<Seq<char>>| #[trigger]
                    is_file_list(config@, *probe, files) && input_views(found@) == file_inputs(
                        files,
                    )
                &&& decided_from(config@, *probe, probe.found@, 0) ==> match files_of(
                    config@,
                    *probe,
                    collections::string_texts(paths@),
                ) {
                    Ok(files) => r matches Ok(found) && input_views(found@) == file_inputs(files),
                    Err(fault) => r matches Err(message) && message@ == fault,
                }
            },
        },
{
    let ghost all = collections::string_texts(paths@);
    proof {
        lemma_stdin_counted(all, 0);
        if all == seq!["-"@] {
            assert(all[0] == "-"@);
            assert(inputs::stdin_count(all, 1) == 0);
        }
        if all.contains("-"@) {
            let i = choose|i: int| 0 <= i < all.len() && all[i] == "-"@;
            assert(all[i] == "-"@);
        }
    }
    let stdin = match reads_stdin(paths) {
        Ok(stdin) => stdin,
        Err(error) => {
            return Err(error);
        },
    };
    let mut out: Vec<Input> = Vec::new();
    if stdin {
        out.push(Input::Stdin);
        assert(input_views(out@) =~= seq![InputView::Stdin]);
        return Ok(out);
    }
    let found = match gather_named(config, probe, paths) {
        Ok(found) => found,
        Err(error) => {
            return Err(error);
        },
    };
    if found.len() == 0 {
        return Err("no BitBake files found in the supplied directories".to_owned());
    }
    let files = sort_distinct(TextOrder::Path, &found);
    let ghost texts = collections::string_texts(files@);
    proof {
        lemma_file_list(config@, *probe, collections::string_texts(found@));
    }
    let mut k: usize = 0;
    while k < files.len()
        invariant
            k <= files@.len(),
            texts == collections::string_texts(files@),
            out@.len() == k,
            forall|j: int| 0 <= j < k ==> (#[trigger] out@[j])@ == InputView::File(texts[j]),
        decreases files@.len() - k,
    {
        out.push(Input::File(files[k].clone()));
        k += 1;
    }
    assert(input_views(out@) =~= file_inputs(texts));
    Ok(out)
}

} // verus!
