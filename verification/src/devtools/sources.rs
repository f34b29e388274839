//! The Sources panel's logic: which location it points at, how a path
//! splits into directory and file name, the file list — every distinct
//! file in the tree with the lowest line seen for it, grouped by directory —
//! and the file held in memory: when it must be read, which files are too
//! large to open, and what a read leaves behind.
//!
//! Finding and reading the file on disk belongs to the host, which reports
//! what it found back to the panel.

use vstd::prelude::*;

use super::probe::{NodeView, ProbeTree};
use super::state::SourceRef;
use crate::text::{
    push_chars, split_on,
    last_index_of, last_of, lemma_text_lt_irreflexive, lemma_text_lt_order, lemma_text_lt_transitive,
    same_chars, text_less, text_lt, to_chars,
};

verus! {

/// The directory part of `path`: everything before its last `/`, or
/// nothing when it has none.
pub open spec fn dir_of(path: Seq<char>) -> Seq<char> {
    if last_of(path, '/') >= 0 {
        path.take(last_of(path, '/'))
    } else {
        Seq::empty()
    }
}

/// The file-name part of `path`: everything after its last `/`.
pub open spec fn name_of(path: Seq<char>) -> Seq<char> {
    path.subrange(last_of(path, '/') + 1, path.len() as int)
}

/// The file list's order: by directory, then by file name, then by the
/// whole path for the rare paths that split alike.
pub open spec fn file_lt(a: Seq<char>, b: Seq<char>) -> bool {
    ||| text_lt(dir_of(a), dir_of(b))
    ||| dir_of(a) == dir_of(b) && text_lt(name_of(a), name_of(b))
    ||| dir_of(a) == dir_of(b) && name_of(a) == name_of(b) && text_lt(a, b)
}

/// `file_lt` is a strict total order.
pub proof fn lemma_file_lt_order(a: Seq<char>, b: Seq<char>)
    ensures
        !(file_lt(a, b) && file_lt(b, a)),
        a != b ==> file_lt(a, b) || file_lt(b, a),
        !file_lt(a, a),
{
    lemma_text_lt_order(dir_of(a), dir_of(b));
    lemma_text_lt_order(name_of(a), name_of(b));
    lemma_text_lt_order(a, b);
    lemma_text_lt_irreflexive(dir_of(a));
    lemma_text_lt_irreflexive(name_of(a));
    lemma_text_lt_irreflexive(a);
}

/// `file_lt` is transitive.
pub proof fn lemma_file_lt_transitive(a: Seq<char>, b: Seq<char>, c: Seq<char>)
    requires
        file_lt(a, b),
        file_lt(b, c),
    ensures
        file_lt(a, c),
{
    if text_lt(dir_of(a), dir_of(b)) && text_lt(dir_of(b), dir_of(c)) {
        lemma_text_lt_transitive(dir_of(a), dir_of(b), dir_of(c));
    }
    if text_lt(name_of(a), name_of(b)) && text_lt(name_of(b), name_of(c)) {
        lemma_text_lt_transitive(name_of(a), name_of(b), name_of(c));
    }
    if text_lt(a, b) && text_lt(b, c) {
        lemma_text_lt_transitive(a, b, c);
    }
}

/// The lowest line any of `nodes` was constructed at in `file`, or `None`
/// when none was.
pub open spec fn lowest_line(nodes: Seq<NodeView>, file: Seq<char>) -> Option<u32>
    decreases nodes.len(),
{
    if nodes.len() == 0 {
        None
    } else {
        let rest = lowest_line(nodes.drop_last(), file);
        match nodes.last().source {
            Some(s) => if s.0 == file {
                match rest {
                    Some(l) => Some(if s.1 < l { s.1 } else { l }),
                    None => Some(s.1),
                }
            } else {
                rest
            },
            None => rest,
        }
    }
}

/// The paths of a file list, in order.
pub open spec fn paths_of(files: Seq<(String, u32)>) -> Seq<Seq<char>> {
    files.map_values(|f: (String, u32)| f.0@)
}

/// Whether a list of paths is in strictly increasing file order.
pub open spec fn ascending(paths: Seq<Seq<char>>) -> bool {
    forall|k: int, l: int| 0 <= k < l < paths.len() ==> file_lt(#[trigger] paths[k], #[trigger] paths[l])
}

/// The line a file list gives for `path`, or `None` when it does not list
/// it.
pub open spec fn line_in(files: Seq<(String, u32)>, path: Seq<char>) -> Option<u32>
    decreases files.len(),
{
    if files.len() == 0 {
        None
    } else if files.last().0@ == path {
        Some(files.last().1)
    } else {
        line_in(files.drop_last(), path)
    }
}

proof fn lemma_line_in_absent(files: Seq<(String, u32)>, path: Seq<char>)
    requires
        forall|k: int| 0 <= k < files.len() ==> #[trigger] files[k].0@ != path,
    ensures
        line_in(files, path) is None,
    decreases files.len(),
{
    if files.len() > 0 {
        assert(files.last().0@ != path);
        lemma_line_in_absent(files.drop_last(), path);
    }
}

proof fn lemma_line_in_at(files: Seq<(String, u32)>, path: Seq<char>, k: int)
    requires
        ascending(paths_of(files)),
        0 <= k < files.len(),
        files[k].0@ == path,
    ensures
        line_in(files, path) == Some(files[k].1),
    decreases files.len(),
{
    let last = files.len() - 1;
    if k < last {
        assert(paths_of(files)[k] == files[k].0@);
        assert(paths_of(files)[last] == files[last].0@);
        assert(file_lt(paths_of(files)[k], paths_of(files)[last]));
        lemma_file_lt_order(path, path);
        assert(files.last().0@ != path);
        let rest = files.drop_last();
        assert forall|a: int, b: int| 0 <= a < b < paths_of(rest).len() implies file_lt(
            #[trigger] paths_of(rest)[a],
            #[trigger] paths_of(rest)[b],
        ) by {
            assert(paths_of(rest)[a] == paths_of(files)[a]);
            assert(paths_of(rest)[b] == paths_of(files)[b]);
        }
        lemma_line_in_at(rest, path, k);
    }
}

/// The directory and file name of a path, as character lists.
fn split_chars(path: &Vec<char>) -> (r: (Vec<char>, Vec<char>))
    ensures
        r.0@ == dir_of(path@),
        r.1@ == name_of(path@),
{
    let n = path.len();
    let start = match last_index_of(path, '/') {
        Some(i) => i + 1,
        None => 0,
    };
    let mut dir: Vec<char> = Vec::new();
    let mut name: Vec<char> = Vec::new();
    let mut i: usize = 0;
    let dir_end = if start > 0 { start - 1 } else { 0 };
    while i < dir_end
        invariant
            i <= dir_end <= path@.len(),
            dir@ == path@.take(i as int),
        decreases dir_end - i,
    {
        dir.push(path[i]);
        assert(path@.take(i + 1) =~= path@.take(i as int).push(path@[i as int]));
        i = i + 1;
    }
    let mut j = start;
    while j < path.len()
        invariant
            start <= j <= path@.len(),
            name@ == path@.subrange(start as int, j as int),
        decreases path@.len() - j,
    {
        name.push(path[j]);
        assert(path@.subrange(start as int, j + 1) =~= path@.subrange(start as int, j as int).push(path@[j as int]));
        j = j + 1;
    }
    if start == 0 {
        assert(dir@ =~= Seq::<char>::empty());
    }
    (dir, name)
}

/// Whether path `a` comes before path `b` in the file list.
fn file_less(a: &Vec<char>, b: &Vec<char>) -> (r: bool)
    ensures
        r == file_lt(a@, b@),
{
    let (a_dir, a_name) = split_chars(a);
    let (b_dir, b_name) = split_chars(b);
    if text_less(&a_dir, &b_dir) {
        return true;
    }
    if !same_chars(&a_dir, &b_dir) {
        return false;
    }
    if text_less(&a_name, &b_name) {
        return true;
    }
    if !same_chars(&a_name, &b_name) {
        return false;
    }
    text_less(a, b)
}

/// Lower the line of `file` to `line`, or place `file` in order at `line`
/// when the list does not have it yet.
fn note_file(files: &mut Vec<(String, u32)>, file: &String, line: u32)
    requires
        ascending(paths_of(old(files)@)),
    ensures
        ascending(paths_of(final(files)@)),
        forall|g: Seq<char>|
            #![trigger line_in(final(files)@, g)]
            line_in(final(files)@, g) == if g == file@ {
                match line_in(old(files)@, g) {
                    Some(l) => Some(if line < l { line } else { l }),
                    None => Some(line),
                }
            } else {
                line_in(old(files)@, g)
            },
{
    let ghost before = files@;
    let f = to_chars(file.as_str());
    let mut pos: usize = 0;
    while pos < files.len()
        invariant
            files@ == before,
            f@ == file@,
            pos <= files@.len(),
            forall|k: int| 0 <= k < pos ==> file_lt(#[trigger] paths_of(files@)[k], file@),
        ensures
            files@ == before,
            f@ == file@,
            pos <= files@.len(),
            forall|k: int| 0 <= k < pos ==> file_lt(#[trigger] paths_of(files@)[k], file@),
            pos < files@.len() ==> !file_lt(paths_of(files@)[pos as int], file@),
        decreases files@.len() - pos,
    {
        let here = to_chars(files[pos].0.as_str());
        assert(paths_of(files@)[pos as int] == files@[pos as int].0@);
        if !file_less(&here, &f) {
            break;
        }
        assert(paths_of(files@)[pos as int] == files@[pos as int].0@);
        pos = pos + 1;
    }
    let found = pos < files.len() && files[pos].0 == *file;
    if found {
        let old_line = files[pos].1;
        let lowered = if line < old_line { line } else { old_line };
        let entry = (file.clone(), lowered);
        files.set(pos, entry);
        proof {
            assert(paths_of(files@) =~= paths_of(before));
            assert forall|g: Seq<char>| #![trigger line_in(files@, g)] line_in(files@, g) == if g == file@ {
                match line_in(before, g) {
                    Some(l) => Some(if line < l { line } else { l }),
                    None => Some(line),
                }
            } else {
                line_in(before, g)
            } by {
                lemma_line_in_at(before, file@, pos as int);
                lemma_line_in_at(files@, file@, pos as int);
                if g != file@ {
                    if exists|k: int| 0 <= k < before.len() && #[trigger] before[k].0@ == g {
                        let k = choose|k: int| 0 <= k < before.len() && #[trigger] before[k].0@ == g;
                        assert(k != pos);
                        assert(files@[k] == before[k]);
                        lemma_line_in_at(before, g, k);
                        lemma_line_in_at(files@, g, k);
                    } else {
                        lemma_line_in_absent(before, g);
                        assert forall|k: int| 0 <= k < files@.len() implies #[trigger] files@[k].0@ != g by {
                            if k != pos {
                                assert(files@[k] == before[k]);
                            }
                        }
                        lemma_line_in_absent(files@, g);
                    }
                }
            }
        }
    } else {
        proof {
            // The file is not listed: everything before `pos` sorts below
            // it, and everything from `pos` on sorts above it.
            if pos < before.len() {
                let here = paths_of(before)[pos as int];
                assert(here == before[pos as int].0@);
                lemma_file_lt_order(here, file@);
                assert(file_lt(file@, here));
            }
            assert forall|k: int| pos <= k < before.len() implies file_lt(file@, #[trigger] paths_of(before)[k]) by {
                if k > pos {
                    assert(file_lt(paths_of(before)[pos as int], paths_of(before)[k]));
                    lemma_file_lt_transitive(file@, paths_of(before)[pos as int], paths_of(before)[k]);
                }
            }
            assert forall|k: int| 0 <= k < before.len() implies #[trigger] before[k].0@ != file@ by {
                assert(paths_of(before)[k] == before[k].0@);
                lemma_file_lt_order(file@, file@);
            }
            lemma_line_in_absent(before, file@);
        }
        files.insert(pos, (file.clone(), line));
        proof {
            let after = files@;
            assert(after.len() == before.len() + 1);
            assert forall|k: int| 0 <= k < after.len() implies #[trigger] paths_of(after)[k] == if k < pos {
                paths_of(before)[k]
            } else if k == pos {
                file@
            } else {
                paths_of(before)[k - 1]
            } by {}
            assert forall|a: int, b: int| 0 <= a < b < paths_of(after).len() implies file_lt(
                #[trigger] paths_of(after)[a],
                #[trigger] paths_of(after)[b],
            ) by {
                if a < pos && b < pos {
                    assert(file_lt(paths_of(before)[a], paths_of(before)[b]));
                } else if a < pos && b == pos {
                } else if a < pos && b > pos {
                    assert(file_lt(file@, paths_of(before)[b - 1]));
                    lemma_file_lt_transitive(paths_of(before)[a], file@, paths_of(before)[b - 1]);
                } else if a == pos {
                } else {
                    assert(file_lt(paths_of(before)[a - 1], paths_of(before)[b - 1]));
                }
            }
            assert forall|g: Seq<char>| #![trigger line_in(files@, g)] line_in(files@, g) == if g == file@ {
                match line_in(before, g) {
                    Some(l) => Some(if line < l { line } else { l }),
                    None => Some(line),
                }
            } else {
                line_in(before, g)
            } by {
                if g == file@ {
                    assert(after[pos as int].0@ == file@);
                    lemma_line_in_at(after, g, pos as int);
                } else if exists|k: int| 0 <= k < before.len() && #[trigger] before[k].0@ == g {
                    let k = choose|k: int| 0 <= k < before.len() && #[trigger] before[k].0@ == g;
                    lemma_line_in_at(before, g, k);
                    if k < pos {
                        assert(after[k] == before[k]);
                        lemma_line_in_at(after, g, k);
                    } else {
                        assert(after[k + 1] == before[k]);
                        lemma_line_in_at(after, g, k + 1);
                    }
                } else {
                    lemma_line_in_absent(before, g);
                    assert forall|k: int| 0 <= k < after.len() implies #[trigger] after[k].0@ != g by {
                        if k < pos {
                            assert(after[k] == before[k]);
                        } else if k > pos {
                            assert(after[k] == before[k - 1]);
                        }
                    }
                    lemma_line_in_absent(after, g);
                }
            }
        }
    }
}

/// Every distinct file in the tree, with the lowest line seen for each —
/// which is what clicking the file in the list jumps to. Ordered by
/// directory and then by file name, so a directory's files stay together
/// rather than splitting around its subdirectories.
pub fn files(tree: &ProbeTree) -> (r: Vec<(String, u32)>)
    ensures
        ascending(paths_of(r@)),
        forall|g: Seq<char>| #![trigger line_in(r@, g)] line_in(r@, g) == lowest_line(tree@.nodes, g),
{
    let mut out: Vec<(String, u32)> = Vec::new();
    let mut i: usize = 0;
    proof {
        assert forall|g: Seq<char>| #![trigger line_in(out@, g)] line_in(out@, g) == lowest_line(
            tree@.nodes.take(0),
            g,
        ) by {}
    }
    while i < tree.nodes.len()
        invariant
            i <= tree@.nodes.len(),
            ascending(paths_of(out@)),
            forall|g: Seq<char>| #![trigger line_in(out@, g)] line_in(out@, g) == lowest_line(tree@.nodes.take(i as int), g),
        decreases tree@.nodes.len() - i,
    {
        assert(tree@.nodes[i as int] == tree.nodes@[i as int]@);
        let ghost prefix = tree@.nodes.take(i + 1);
        assert(prefix.drop_last() =~= tree@.nodes.take(i as int));
        assert(prefix.last() == tree@.nodes[i as int]);
        match &tree.nodes[i].source {
            Some(source) => {
                note_file(&mut out, &source.file, source.line);
                assert forall|g: Seq<char>| #![trigger line_in(out@, g)] line_in(out@, g) == lowest_line(prefix, g) by {}
            },
            None => {
                assert forall|g: Seq<char>| #![trigger line_in(out@, g)] line_in(out@, g) == lowest_line(prefix, g) by {}
            },
        }
        i = i + 1;
    }
    assert(tree@.nodes.take(tree@.nodes.len() as int) =~= tree@.nodes);
    out
}

/// Files past this size are listed but not opened. A source file is never
/// this big, so hitting it means the location pointed at something else.
pub const MAX_BYTES: u64 = 2097152;

/// Whether a file of `size` bytes may be opened.
pub fn fits(size: u64) -> (r: bool)
    ensures
        r == (size <= MAX_BYTES),
{
    size <= MAX_BYTES
}

/// `s` without one trailing carriage return.
pub open spec fn strip_cr(s: Seq<char>) -> Seq<char> {
    if s.len() > 0 && s.last() == '\r' {
        s.drop_last()
    } else {
        s
    }
}

/// The lines of `text` as `str::lines` gives them: split at each `\n`, a
/// `\r` just before it dropped, and no empty line after a final `\n`.
pub open spec fn lines_of(text: Seq<char>) -> Seq<Seq<char>> {
    let pieces = split_on(text, '\n');
    let body = pieces.drop_last().map_values(|p: Seq<char>| strip_cr(p));
    if pieces.last().len() == 0 {
        body
    } else {
        body.push(pieces.last())
    }
}

/// The characters `from..to` of `chars` as a line, without a trailing
/// carriage return.
fn line_at(chars: &Vec<char>, from: usize, to: usize) -> (r: String)
    requires
        from <= to <= chars@.len(),
    ensures
        r@ == strip_cr(chars@.subrange(from as int, to as int)),
{
    let mut end = to;
    if end > from && chars[end - 1] == '\r' {
        end = end - 1;
    }
    let mut out = String::new();
    push_chars(&mut out, chars, from, end);
    assert(out@ =~= strip_cr(chars@.subrange(from as int, to as int)));
    out
}

/// The lines of `text`, as `str::lines` gives them.
pub fn lines(text: &str) -> (r: Vec<String>)
    ensures
        r@.map_values(|l: String| l@) == lines_of(text@),
{
    let chars = to_chars(text);
    let mut out: Vec<String> = Vec::new();
    let ghost done: Seq<Seq<char>> = Seq::empty();
    let mut start: usize = 0;
    let mut i: usize = 0;
    assert(chars@.take(0) =~= Seq::<char>::empty());
    assert(split_on(chars@.take(0), '\n') =~= done.push(chars@.subrange(0, 0)));
    assert(out@.map_values(|l: String| l@) =~= done.map_values(|p: Seq<char>| strip_cr(p)));
    while i < chars.len()
        invariant
            start <= i <= chars@.len(),
            chars@ == text@,
            split_on(chars@.take(i as int), '\n') == done.push(chars@.subrange(start as int, i as int)),
            out@.map_values(|l: String| l@) == done.map_values(|p: Seq<char>| strip_cr(p)),
        decreases chars@.len() - i,
    {
        let ghost prefix = chars@.take(i + 1);
        assert(prefix.drop_last() =~= chars@.take(i as int));
        assert(prefix.last() == chars@[i as int]);
        if chars[i] == '\n' {
            let line = line_at(&chars, start, i);
            let ghost before = out@;
            out.push(line);
            proof {
                let piece = chars@.subrange(start as int, i as int);
                assert(out@.map_values(|l: String| l@) =~= before.map_values(|l: String| l@).push(strip_cr(piece)));
                assert(done.push(piece).map_values(|p: Seq<char>| strip_cr(p)) =~= done.map_values(
                    |p: Seq<char>| strip_cr(p),
                ).push(strip_cr(piece)));
                done = done.push(piece);
                assert(chars@.subrange(i + 1, i + 1) =~= Seq::<char>::empty());
            }
            start = i + 1;
        } else {
            proof {
                let p = split_on(chars@.take(i as int), '\n');
                assert(p.last() == chars@.subrange(start as int, i as int));
                assert(chars@.subrange(start as int, i + 1) =~= chars@.subrange(start as int, i as int).push(
                    chars@[i as int],
                ));
                assert(split_on(prefix, '\n') =~= done.push(chars@.subrange(start as int, i + 1)));
            }
        }
        i = i + 1;
    }
    let ghost pieces = split_on(text@, '\n');
    proof {
        assert(chars@.take(chars@.len() as int) =~= chars@);
        assert(pieces.drop_last() =~= done);
    }
    if start < chars.len() {
        let ghost before = out@;
        let mut last = String::new();
        push_chars(&mut last, &chars, start, chars.len());
        out.push(last);
        proof {
            assert(out@.map_values(|l: String| l@) =~= before.map_values(|l: String| l@).push(pieces.last()));
        }
    }
    out
}

/// What the host found when it went to read the selected file.
pub enum Opened {
    /// No file resolves from the path.
    NotFound,
    /// Its metadata could not be read: the error, as text.
    NoMetadata(String),
    /// It does not `fits`.
    TooLarge,
    /// It could not be read: the error, as text.
    Unreadable(String),
    /// Its contents.
    Text(String),
}

/// What opening a file left in the panel.
pub enum Loaded {
    Lines(Vec<String>),
    Failed(String),
}

/// What opening a file left, by value.
pub enum LoadedView {
    Lines(Seq<Seq<char>>),
    Failed(Seq<char>),
}

impl View for Loaded {
    type V = LoadedView;

    open spec fn view(&self) -> LoadedView {
        match self {
            Loaded::Lines(lines) => LoadedView::Lines(lines@.map_values(|l: String| l@)),
            Loaded::Failed(message) => LoadedView::Failed(message@),
        }
    }
}

/// What the panel keeps after the host reports `opened` for `path`: the
/// lines, or a message naming the path and what went wrong.
pub open spec fn loaded_from(path: Seq<char>, opened: Opened) -> LoadedView {
    match opened {
        Opened::NotFound => LoadedView::Failed("Cannot open "@ + path),
        Opened::NoMetadata(error) => LoadedView::Failed("Cannot open "@ + path + ": "@ + error@),
        Opened::TooLarge => LoadedView::Failed(path + " is too large to display"@),
        Opened::Unreadable(error) => LoadedView::Failed("Cannot read "@ + path + ": "@ + error@),
        Opened::Text(text) => LoadedView::Lines(lines_of(text@)),
    }
}

/// The panel's own state: the location it points at, and the file held in
/// memory with what reading it produced.
pub struct SourcesPanel {
    selected: Option<SourceRef>,
    cache: Option<(String, Loaded)>,
}

impl SourcesPanel {
    /// Pointing nowhere, with nothing read.
    pub fn new() -> (r: SourcesPanel)
        ensures
            r.selection() is None,
            r.held() is None,
    {
        SourcesPanel { selected: None, cache: None }
    }

    /// The location the panel points at.
    pub closed spec fn selection(&self) -> Option<SourceRef> {
        self.selected
    }

    /// The file held in memory, and what reading it produced.
    pub closed spec fn held(&self) -> Option<(Seq<char>, LoadedView)> {
        match self.cache {
            Some(c) => Some((c.0@, c.1@)),
            None => None,
        }
    }

    pub fn selected(&self) -> (r: Option<&SourceRef>)
        ensures
            r == match self.selection() {
                Some(s) => Some(&s),
                None => None::<&SourceRef>,
            },
    {
        match &self.selected {
            Some(s) => Some(s),
            None => None,
        }
    }

    /// The file the host should read now: the selected one, unless it is
    /// already the one held, so revealing another line of the same file
    /// reuses what was read.
    pub fn wanted(&self) -> (r: Option<String>)
        ensures
            match r {
                Some(path) => self.selection() matches Some(s) && path@ == s.file@ && !(self.held() matches Some(
                    h,
                ) && h.0 == s.file@),
                None => self.selection() is None || (self.held() matches Some(h) && h.0
                    == self.selection()->0.file@),
            },
    {
        match &self.selected {
            None => None,
            Some(source) => {
                match &self.cache {
                    Some((path, _)) => {
                        if same_chars(&to_chars(path.as_str()), &to_chars(source.file.as_str())) {
                            None
                        } else {
                            Some(source.file.clone())
                        }
                    },
                    None => Some(source.file.clone()),
                }
            },
        }
    }

    /// Keep what the host found for `path`: the file is now held, with its
    /// lines or a message saying why it could not be shown.
    pub fn store(&mut self, path: &str, opened: Opened)
        ensures
            final(self).held() == Some((path@, loaded_from(path@, opened))),
            final(self).selection() == old(self).selection(),
    {
        let ghost o = opened;
        let loaded = match opened {
            Opened::NotFound => {
                let mut m = "Cannot open ".to_string();
                m.append(path);
                Loaded::Failed(m)
            },
            Opened::NoMetadata(error) => {
                let mut m = "Cannot open ".to_string();
                m.append(path);
                m.append(": ");
                m.append(error.as_str());
                Loaded::Failed(m)
            },
            Opened::TooLarge => {
                let mut m = path.to_string();
                m.append(" is too large to display");
                Loaded::Failed(m)
            },
            Opened::Unreadable(error) => {
                let mut m = "Cannot read ".to_string();
                m.append(path);
                m.append(": ");
                m.append(error.as_str());
                Loaded::Failed(m)
            },
            Opened::Text(text) => Loaded::Lines(lines(text.as_str())),
        };
        proof {
            reveal_strlit("Cannot open ");
            reveal_strlit(": ");
            reveal_strlit(" is too large to display");
            reveal_strlit("Cannot read ");
        }
        assert(loaded@ == loaded_from(path@, o));
        self.cache = Some((path.to_string(), loaded));
    }

    /// The file held in memory and what reading it produced.
    pub fn cached(&self) -> (r: Option<(&str, &Loaded)>)
        ensures
            match r {
                Some(c) => self.held() == Some((c.0@, c.1@)),
                None => self.held() is None,
            },
    {
        match &self.cache {
            Some((path, loaded)) => Some((path.as_str(), loaded)),
            None => None,
        }
    }

    /// Point the panel at a location. The file is read when the host next
    /// asks what is `wanted`.
    pub fn reveal_at(&mut self, source: SourceRef)
        ensures
            final(self).selection() == Some(source),
            final(self).held() == old(self).held(),
    {
        self.selected = Some(source);
    }

    /// Split a path into the directory it lives in and its file name, so
    /// the list can group the way a file tree would.
    pub fn split(path: &str) -> (r: (&str, &str))
        ensures
            r.0@ == dir_of(path@),
            r.1@ == name_of(path@),
    {
        let chars = to_chars(path);
        let n = chars.len();
        match last_index_of(&chars, '/') {
            Some(i) => {
                assert(path@.take(i as int) =~= path@.subrange(0, i as int));
                (path.substring_char(0, i), path.substring_char(i + 1, n))
            },
            None => {
                assert(path@.subrange(0, n as int) =~= path@);
                proof {
                    reveal_strlit("");
                }
                assert(""@ =~= Seq::<char>::empty());
                ("", path.substring_char(0, n))
            },
        }
    }
}

impl Default for SourcesPanel {
    fn default() -> (r: SourcesPanel)
        ensures
            r.selection() is None,
    {
        SourcesPanel::new()
    }
}

/// A file list in file order names each file once.
pub proof fn law_file_list_is_distinct(files: Seq<(String, u32)>)
    requires
        ascending(paths_of(files)),
    ensures
        forall|k: int, l: int|
            0 <= k < l < files.len() ==> #[trigger] paths_of(files)[k] != #[trigger] paths_of(files)[l],
{
    assert forall|k: int, l: int| 0 <= k < l < files.len() implies #[trigger] paths_of(files)[k]
        != #[trigger] paths_of(files)[l] by {
        lemma_file_lt_order(paths_of(files)[k], paths_of(files)[k]);
    }
}

} // verus!
