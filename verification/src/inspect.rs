use vstd::prelude::*;
use vstd::string::*;

use crate::builder::Tree;
use crate::digest::{element_hex, field_hex, field_is_zero, is_zero_element, views, Digest};
use crate::store::NodeStore;

verus! {

/// How a key with the hex text `hex` is shown: `0` for the field's zero; else the
/// hex text, whole or, in short, its last eight characters after three dots.
pub open spec fn shown(zero: bool, hex: Seq<char>, full: bool) -> Seq<char> {
    if zero {
        "0"@
    } else if full {
        hex
    } else {
        "..."@ + hex.subrange(hex.len() - 8, hex.len() as int)
    }
}

/// How the key with these bytes is shown.
pub open spec fn key_text(bytes: Seq<u8>, full: bool) -> Seq<char> {
    shown(is_zero_element(bytes), element_hex(bytes), full)
}

/// The text that shows a key, from whether it is the field's zero and from its hex
/// text.
pub fn show_key(zero: bool, hex: &str, full: bool) -> (s: String)
    requires
        !zero && !full ==> hex@.len() >= 8,
    ensures
        s@ == shown(zero, hex@, full),
{
    if zero {
        String::from_str("0")
    } else if full {
        String::from_str(hex)
    } else {
        let n = hex.unicode_len();
        let tail = hex.substring_char(n - 8, n);
        let mut s = String::from_str("...");
        s.append(tail);
        s
    }
}

/// The text that shows a key.
pub fn get_key_text(el: &Digest, full: bool) -> (s: String)
    ensures
        s@ == key_text(el@, full),
{
    let zero = field_is_zero(el);
    let hex = field_hex(el);
    show_key(zero, hex.as_str(), full)
}

/// A node has a child that is not the field's zero.
pub open spec fn some_child(node: Seq<Seq<u8>>) -> bool {
    exists|i: int| 0 <= i < node.len() && !is_zero_element(#[trigger] node[i])
}

/// Whether a node has a child that is not the field's zero.
pub fn has_children(node: &Vec<Digest>) -> (r: bool)
    ensures
        r == some_child(views(node@)),
{
    let mut i: usize = 0;
    while i < node.len()
        invariant
            i <= node@.len(),
            forall|j: int| 0 <= j < i ==> is_zero_element(#[trigger] views(node@)[j]),
        decreases node@.len() - i,
    {
        if !field_is_zero(&node[i]) {
            assert(!is_zero_element(views(node@)[i as int]));
            return true;
        }
        i += 1;
    }
    false
}

/// The children filed under a key, if any.
pub fn get_node(el: &Digest, db: &NodeStore) -> (r: Option<Vec<Digest>>)
    requires
        db.wf(),
    ensures
        match r {
            Some(node) => db@.dom().contains(el@) && views(node@) == db@[el@],
            None => !db@.dom().contains(el@),
        },
{
    db.get(el)
}

/// Whether a node is filed under the key and has a child that is not the field's
/// zero.
pub fn found_with_children(key: &Digest, db: &NodeStore) -> (r: bool)
    requires
        db.wf(),
    ensures
        r == (db@.dom().contains(key@) && some_child(db@[key@])),
{
    match get_node(key, db) {
        Some(node) => has_children(&node),
        None => false,
    }
}

/// A decimal digit.
pub open spec fn is_digit(c: char) -> bool {
    '0' <= c && c <= '9'
}

/// Where the run of digits that holds position `from` ends: the first position
/// from there on that holds no digit.
pub open spec fn run_end(path: Seq<char>, from: int) -> int
    decreases path.len() - from,
{
    if 0 <= from < path.len() && is_digit(path[from]) {
        run_end(path, from + 1)
    } else {
        from
    }
}

/// The runs of digits of `path` that begin at `from` or later, each as the
/// positions of its first character and of the one after its last; `from` is not
/// inside a run.
pub open spec fn runs_from(path: Seq<char>, from: int) -> Seq<(int, int)>
    decreases path.len() - from,
{
    if from < 0 || from >= path.len() {
        Seq::empty()
    } else if is_digit(path[from]) {
        proof {
            lemma_run_end(path, from);
        }
        seq![(from, run_end(path, from))] + runs_from(path, run_end(path, from))
    } else {
        runs_from(path, from + 1)
    }
}

/// The child numbers that a path names: its maximal runs of decimal digits, left
/// to right. Whatever stands between them only parts them.
pub open spec fn digit_runs(path: Seq<char>) -> Seq<(int, int)> {
    runs_from(path, 0)
}

/// The number that the digits from `from` up to `to` spell.
pub open spec fn run_value(path: Seq<char>, from: int, to: int) -> nat
    decreases to - from,
{
    if to <= from {
        0
    } else {
        10 * run_value(path, from, to - 1) + (path[to - 1] as nat - '0' as nat) as nat
    }
}

/// A run ends after it begins, inside the path.
pub proof fn lemma_run_end(path: Seq<char>, from: int)
    requires
        0 <= from <= path.len(),
    ensures
        from <= run_end(path, from) <= path.len(),
        from < path.len() && is_digit(path[from]) ==> from < run_end(path, from),
        forall|j: int| from <= j < run_end(path, from) ==> is_digit(#[trigger] path[j]),
        run_end(path, from) < path.len() ==> !is_digit(path[run_end(path, from)]),
    decreases path.len() - from,
{
    if from < path.len() && is_digit(path[from]) {
        lemma_run_end(path, from + 1);
    }
}

/// The runs as places of a vector.
pub open spec fn places(v: Seq<(usize, usize)>) -> Seq<(int, int)> {
    Seq::new(v.len(), |i: int| (v[i].0 as int, v[i].1 as int))
}

/// The runs of decimal digits of a path, left to right.
pub fn find_digit_runs(path: &str) -> (runs: Vec<(usize, usize)>)
    ensures
        places(runs@) == digit_runs(path@),
        forall|i: int|
            0 <= i < runs@.len() ==> (#[trigger] runs@[i]).0 < runs@[i].1 <= path@.len(),
{
    let n = path.unicode_len();
    let mut runs: Vec<(usize, usize)> = Vec::new();
    let mut i: usize = 0;
    while i < n
        invariant
            i <= n,
            n == path@.len(),
            digit_runs(path@) == places(runs@) + runs_from(path@, i as int),
            forall|k: int|
                0 <= k < runs@.len() ==> (#[trigger] runs@[k]).0 < runs@[k].1 <= path@.len(),
        decreases n - i,
    {
        let c = path.get_char(i);
        if '0' <= c && c <= '9' {
            let start = i;
            let mut j: usize = i + 1;
            proof {
                lemma_run_end(path@, start as int);
            }
            while j < n && is_digit_char(path.get_char(j))
                invariant
                    start < j <= n,
                    n == path@.len(),
                    run_end(path@, start as int) == run_end(path@, j as int),
                decreases n - j,
            {
                j += 1;
            }
            proof {
                assert(run_end(path@, j as int) == j);
                assert(places(runs@.push((start, j))) =~= places(runs@) + seq![
                    (start as int, j as int),
                ]);
            }
            runs.push((start, j));
            i = j;
        } else {
            i += 1;
        }
    }
    proof {
        assert(runs_from(path@, n as int) =~= Seq::<(int, int)>::empty());
        assert(places(runs@) + Seq::<(int, int)>::empty() =~= places(runs@));
    }
    runs
}

/// Whether a character is a decimal digit.
pub fn is_digit_char(c: char) -> (r: bool)
    ensures
        r == is_digit(c),
{
    '0' <= c && c <= '9'
}

/// A number as far as a machine word holds it.
pub open spec fn capped(n: nat) -> usize {
    if n <= usize::MAX {
        n as usize
    } else {
        usize::MAX
    }
}

/// The number that a run of digits spells; the largest word where the number is
/// beyond it.
pub fn parse_run(path: &str, from: usize, to: usize) -> (r: usize)
    requires
        from <= to <= path@.len(),
        forall|j: int| from <= j < to ==> is_digit(#[trigger] path@[j]),
    ensures
        r == capped(run_value(path@, from as int, to as int)),
{
    let mut acc: usize = 0;
    let mut k: usize = from;
    while k < to
        invariant
            from <= k <= to <= path@.len(),
            forall|j: int| from <= j < to ==> is_digit(#[trigger] path@[j]),
            acc == capped(run_value(path@, from as int, k as int)),
        decreases to - k,
    {
        let c = path.get_char(k);
        assert(is_digit(path@[k as int]));
        let d: usize = (c as u32 - '0' as u32) as usize;
        let ghost before = run_value(path@, from as int, k as int);
        assert(run_value(path@, from as int, k + 1) == 10 * before + d);
        acc = if acc > (usize::MAX - d) / 10 {
            usize::MAX
        } else {
            acc * 10 + d
        };
        k += 1;
    }
    acc
}

/// One step of a path, as it is shown: the text that named it and the text of
/// the key it led to.
pub struct PathSegment {
    pub descrip: String,
    pub key: String,
}

/// What a walk has to report besides its result.
pub enum WalkNote {
    /// A number of the path that is no child number, and was passed over.
    BadIndex(usize),
    /// The part of the path, up to the number at which the walk found no node.
    NotFound(String),
}

/// What a walk along a path comes to: the steps taken and the key reached, unless
/// a node was missing on the way; and what there is to report.
pub struct PathWalk {
    pub found: Option<(Vec<PathSegment>, Digest)>,
    pub notes: Vec<WalkNote>,
}

/// A note as plain values.
pub enum NoteView {
    BadIndex(nat),
    NotFound(Seq<char>),
}

/// Where a walk stands: whether a node was missing, the key and the node it is
/// at, the steps taken and the notes made.
pub struct WalkView {
    pub lost: bool,
    pub key: Seq<u8>,
    pub node: Seq<Seq<u8>>,
    pub segments: Seq<(Seq<char>, Seq<char>)>,
    pub notes: Seq<NoteView>,
}

/// The steps as plain values.
pub open spec fn segment_views(v: Seq<PathSegment>) -> Seq<(Seq<char>, Seq<char>)> {
    Seq::new(v.len(), |i: int| (v[i].descrip@, v[i].key@))
}

/// A note's plain value.
pub open spec fn note_view(n: WalkNote) -> NoteView {
    match n {
        WalkNote::BadIndex(i) => NoteView::BadIndex(i as nat),
        WalkNote::NotFound(s) => NoteView::NotFound(s@),
    }
}

/// The notes as plain values.
pub open spec fn note_views(v: Seq<WalkNote>) -> Seq<NoteView> {
    Seq::new(v.len(), |i: int| note_view(v[i]))
}

/// A walk before its first step: at the root, which is shown in full where the
/// path names no child.
pub open spec fn walk_start(
    db: Map<Seq<u8>, Seq<Seq<u8>>>,
    root: Seq<u8>,
    runs: Seq<(int, int)>,
) -> WalkView {
    WalkView {
        lost: false,
        key: root,
        node: db[root],
        segments: seq![("root"@, key_text(root, runs.len() == 0))],
        notes: Seq::empty(),
    }
}

/// The walk `w` after the `k`-th number of the path. A number of 8 or more is
/// noted and passed over. A smaller one leads to that child of the node, if a
/// node is filed under it: the child is shown in full where the number is the
/// path's last. Else the walk is lost, and the path up to the number is noted.
pub open spec fn walk_step(
    db: Map<Seq<u8>, Seq<Seq<u8>>>,
    path: Seq<char>,
    runs: Seq<(int, int)>,
    k: int,
    w: WalkView,
) -> WalkView {
    let (from, to) = runs[k];
    let idx = run_value(path, from, to);
    if w.lost {
        w
    } else if idx >= 8 {
        WalkView { notes: w.notes.push(NoteView::BadIndex(capped(idx) as nat)), ..w }
    } else if idx < w.node.len() && db.dom().contains(w.node[idx as int]) {
        let key = w.node[idx as int];
        WalkView {
            key,
            node: db[key],
            segments: w.segments.push(
                (path.subrange(from, to), key_text(key, k == runs.len() - 1)),
            ),
            ..w
        }
    } else {
        WalkView { lost: true, notes: w.notes.push(NoteView::NotFound(path.subrange(0, to))), ..w }
    }
}

/// The walk from the root after the first `k` numbers of the path.
pub open spec fn walk(
    db: Map<Seq<u8>, Seq<Seq<u8>>>,
    root: Seq<u8>,
    path: Seq<char>,
    runs: Seq<(int, int)>,
    k: nat,
) -> WalkView
    decreases k,
{
    if k == 0 {
        walk_start(db, root, runs)
    } else {
        walk_step(db, path, runs, k - 1, walk(db, root, path, runs, (k - 1) as nat))
    }
}

/// The walk along the whole path.
pub open spec fn path_walk(db: Map<Seq<u8>, Seq<Seq<u8>>>, root: Seq<u8>, path: Seq<char>) -> WalkView {
    walk(db, root, path, digit_runs(path), digit_runs(path).len())
}

/// Follows a path such as `/3/7` from the root of a tree through the store: each
/// number of the path names a child of the node reached so far. The root must be
/// filed in the store.
pub fn find_node_from_path<H>(tree: &Tree<'_, H>, db: &NodeStore, path: &str) -> (r: PathWalk)
    requires
        db.wf(),
        db@.dom().contains(tree.root@),
    ensures
        ({
            let w = path_walk(db@, tree.root@, path@);
            &&& note_views(r.notes@) == w.notes
            &&& r.found is None <==> w.lost
            &&& r.found matches Some(f) ==> segment_views(f.0@) == w.segments && f.1@ == w.key
        }),
{
    let runs = find_digit_runs(path);
    let ghost places = digit_runs(path@);
    let ghost store = db@;
    let ghost root = tree.root@;
    let count = runs.len();
    let mut lookup_key = tree.root.clone();
    let mut current = get_node(&lookup_key, db).unwrap();
    let mut ids: Vec<PathSegment> = Vec::new();
    let mut notes: Vec<WalkNote> = Vec::new();
    ids.push(
        PathSegment {
            descrip: String::from_str("root"),
            key: get_key_text(&lookup_key, count == 0),
        },
    );
    proof {
        assert(segment_views(ids@) =~= walk_start(store, root, places).segments);
        assert(note_views(notes@) =~= walk_start(store, root, places).notes);
        assert(crate::inspect::places(runs@).len() == runs@.len());
    }
    let mut k: usize = 0;
    while k < count
        invariant
            k <= count,
            count == runs@.len(),
            db.wf(),
            store == db@,
            root == tree.root@,
            places == digit_runs(path@),
            crate::inspect::places(runs@) == places,
            forall|i: int|
                0 <= i < runs@.len() ==> (#[trigger] runs@[i]).0 < runs@[i].1 <= path@.len(),
            ({
                let w = walk(store, root, path@, places, k as nat);
                &&& !w.lost
                &&& note_views(notes@) == w.notes
                &&& segment_views(ids@) == w.segments
                &&& lookup_key@ == w.key
                &&& views(current@) == w.node
            }),
        decreases count - k,
    {
        let (from, to) = runs[k];
        proof {
            assert(crate::inspect::places(runs@)[k as int] == (from as int, to as int));
            lemma_runs_hold_digits(path@, 0, k as int);
        }
        let ghost before = walk(store, root, path@, places, k as nat);
        let ghost after = walk_step(store, path@, places, k as int, before);
        let child_idx = parse_run(path, from, to);
        if child_idx < 8 {
            let next = if child_idx < current.len() {
                get_node(&current[child_idx], db)
            } else {
                None
            };
            proof {
                assert(views(current@).len() == current@.len());
            }
            match next {
                Some(node) => {
                    lookup_key = current[child_idx].clone();
                    current = node;
                    let ghost old_ids = ids@;
                    ids.push(
                        PathSegment {
                            descrip: String::from_str(path.substring_char(from, to)),
                            key: get_key_text(&lookup_key, k == count - 1),
                        },
                    );
                    proof {
                        assert(segment_views(ids@) =~= segment_views(old_ids).push(
                            (path@.subrange(from as int, to as int), key_text(
                                lookup_key@,
                                k == count - 1,
                            )),
                        ));
                    }
                },
                None => {
                    let ghost old_notes = notes@;
                    notes.push(WalkNote::NotFound(String::from_str(path.substring_char(0, to))));
                    proof {
                        assert(note_views(notes@) =~= note_views(old_notes).push(
                            NoteView::NotFound(path@.subrange(0, to as int)),
                        ));
                        assert(after.lost);
                        lemma_lost_stays(store, root, path@, places, (k + 1) as nat, count as nat);
                    }
                    return PathWalk { found: None, notes };
                },
            }
        } else {
            let ghost old_notes = notes@;
            notes.push(WalkNote::BadIndex(child_idx));
            proof {
                assert(note_views(notes@) =~= note_views(old_notes).push(
                    NoteView::BadIndex(child_idx as nat),
                ));
            }
        }
        k += 1;
    }
    PathWalk { found: Some((ids, lookup_key)), notes }
}

/// Once a walk is lost, the rest of the path changes nothing.
proof fn lemma_lost_stays(
    db: Map<Seq<u8>, Seq<Seq<u8>>>,
    root: Seq<u8>,
    path: Seq<char>,
    runs: Seq<(int, int)>,
    k: nat,
    n: nat,
)
    requires
        k <= n,
        walk(db, root, path, runs, k).lost,
    ensures
        walk(db, root, path, runs, n) == walk(db, root, path, runs, k),
    decreases n - k,
{
    if k < n {
        lemma_lost_stays(db, root, path, runs, k, (n - 1) as nat);
    }
}

/// Every run found lies inside the path and holds digits only.
proof fn lemma_runs_hold_digits(path: Seq<char>, from: int, k: int)
    requires
        0 <= from,
        0 <= k < runs_from(path, from).len(),
    ensures
        ({
            let (a, b) = runs_from(path, from)[k];
            &&& from <= a < b <= path.len()
            &&& forall|j: int| a <= j < b ==> is_digit(#[trigger] path[j])
        }),
    decreases path.len() - from,
{
    if from < path.len() {
        if is_digit(path[from]) {
            lemma_run_end(path, from);
            if k > 0 {
                lemma_runs_hold_digits(path, run_end(path, from), k - 1);
            }
        } else {
            lemma_runs_hold_digits(path, from + 1, k);
        }
    }
}

/// `n` levels of indentation, two spaces each.
pub open spec fn indent(n: nat) -> Seq<char>
    decreases n,
{
    if n == 0 {
        Seq::empty()
    } else {
        indent((n - 1) as nat) + "  "@
    }
}

/// The text of a child number below 8; empty for any other.
pub open spec fn child_number(i: int) -> Seq<char> {
    if i == 0 {
        "0"@
    } else if i == 1 {
        "1"@
    } else if i == 2 {
        "2"@
    } else if i == 3 {
        "3"@
    } else if i == 4 {
        "4"@
    } else if i == 5 {
        "5"@
    } else if i == 6 {
        "6"@
    } else if i == 7 {
        "7"@
    } else {
        ""@
    }
}

/// The line that shows the `i`-th step of a path: its text and its key, indented
/// by its depth, and after a slash but for the first.
pub open spec fn step_line(i: int, step: (Seq<char>, Seq<char>)) -> Seq<char> {
    indent(i as nat) + (if i == 0 {
        ""@
    } else {
        "/"@
    }) + step.0 + " = "@ + step.1
}

/// The line that shows the `i`-th child of a node: a plus sign where a node with
/// children is filed under it, else a minus sign; its number; and its key in
/// short.
pub open spec fn child_line(
    margin: Seq<char>,
    db: Map<Seq<u8>, Seq<Seq<u8>>>,
    node: Seq<Seq<u8>>,
    i: int,
) -> Seq<char> {
    margin + (if db.dom().contains(node[i]) && some_child(db[node[i]]) {
        "+"@
    } else {
        "-"@
    }) + " "@ + child_number(i) + ": "@ + key_text(node[i], false)
}

/// The lines that show a node: what is filed under `key`, below the steps that
/// led to it. A node without children is shown as a dot, a node with children
/// by its first eight, and a key under which nothing is filed as not found.
pub open spec fn dump_lines(
    steps: Seq<(Seq<char>, Seq<char>)>,
    key: Seq<u8>,
    db: Map<Seq<u8>, Seq<Seq<u8>>>,
) -> Seq<Seq<char>> {
    let head = Seq::new(steps.len(), |i: int| step_line(i, steps[i]));
    let margin = indent(steps.len()) + " "@;
    if !db.dom().contains(key) {
        head.push(key_text(key, false) + " not found in map!"@)
    } else if some_child(db[key]) {
        let shown = if db[key].len() < 8 {
            db[key].len()
        } else {
            8
        };
        head.push(margin + "  |"@) + Seq::new(shown, |i: int| child_line(margin, db, db[key], i))
    } else {
        head.push(margin + "  |"@).push(margin + "  ."@)
    }
}

/// The text of a child number.
fn number_text(i: usize) -> (r: &'static str)
    requires
        i < 8,
    ensures
        r@ == child_number(i as int),
{
    if i == 0 {
        "0"
    } else if i == 1 {
        "1"
    } else if i == 2 {
        "2"
    } else if i == 3 {
        "3"
    } else if i == 4 {
        "4"
    } else if i == 5 {
        "5"
    } else if i == 6 {
        "6"
    } else {
        "7"
    }
}

/// The lines that show the node filed under `key`, below the steps of the path
/// that led to it.
pub fn dump(preamble: Option<Vec<PathSegment>>, key: &Digest, db: &NodeStore) -> (lines: Vec<String>)
    requires
        db.wf(),
    ensures
        lines@.len() == dump_lines(
            match preamble {
                Some(p) => segment_views(p@),
                None => Seq::empty(),
            },
            key@,
            db@,
        ).len(),
        forall|i: int|
            0 <= i < lines@.len() ==> (#[trigger] lines@[i])@ == dump_lines(
                match preamble {
                    Some(p) => segment_views(p@),
                    None => Seq::empty(),
                },
                key@,
                db@,
            )[i],
{
    let steps: Vec<PathSegment> = match preamble {
        Some(p) => p,
        None => Vec::new(),
    };
    let ghost views_of_steps = segment_views(steps@);
    let ghost want = dump_lines(views_of_steps, key@, db@);
    proof {
        assert(preamble is None ==> views_of_steps =~= Seq::empty());
    }
    let mut lines: Vec<String> = Vec::new();
    let mut indenter = String::new();
    let mut i: usize = 0;
    while i < steps.len()
        invariant
            i <= steps@.len(),
            views_of_steps == segment_views(steps@),
            indenter@ == indent(i as nat),
            lines@.len() == i,
            forall|j: int| 0 <= j < i ==> (#[trigger] lines@[j])@ == step_line(j, views_of_steps[j]),
        decreases steps@.len() - i,
    {
        let mut line = indenter.clone();
        line.append(if i == 0 {
            ""
        } else {
            "/"
        });
        line.append(steps[i].descrip.as_str());
        line.append(" = ");
        line.append(steps[i].key.as_str());
        lines.push(line);
        indenter.append("  ");
        i += 1;
    }
    indenter.append(" ");
    let ghost margin = indenter@;
    let ghost head = lines@;
    proof {
        assert(margin == indent(views_of_steps.len()) + " "@);
        assert(head.len() == views_of_steps.len());
    }
    match get_node(key, db) {
        Some(node) => {
            let mut bar = indenter.clone();
            bar.append("  |");
            lines.push(bar);
            if has_children(&node) {
                let shown: usize = if node.len() < 8 {
                    node.len()
                } else {
                    8
                };
                let mut c: usize = 0;
                proof {
                    assert(views(node@).len() == node@.len());
                }
                while c < shown
                    invariant
                        c <= shown <= 8,
                        shown <= node@.len(),
                        db.wf(),
                        margin == indenter@,
                        db@.dom().contains(key@),
                        views(node@) == db@[key@],
                        lines@.len() == head.len() + 1 + c,
                        forall|j: int| 0 <= j <= head.len() ==> lines@[j] == head.push(bar)[j],
                        forall|j: int|
                            0 <= j < c ==> (#[trigger] lines@[head.len() + 1 + j])@ == child_line(
                                margin,
                                db@,
                                db@[key@],
                                j,
                            ),
                    decreases shown - c,
                {
                    let mut line = indenter.clone();
                    line.append(if found_with_children(&node[c], db) {
                        "+"
                    } else {
                        "-"
                    });
                    line.append(" ");
                    line.append(number_text(c));
                    line.append(": ");
                    line.append(get_key_text(&node[c], false).as_str());
                    proof {
                        assert(views(node@)[c as int] == node@[c as int]@);
                    }
                    lines.push(line);
                    c += 1;
                }
                proof {
                    assert(lines@.len() == want.len());
                    assert forall|j: int| 0 <= j < lines@.len() implies (#[trigger] lines@[j])@
                        == want[j] by {
                        if j <= head.len() {
                            assert(lines@[j] == head.push(bar)[j]);
                        } else {
                            assert(lines@[head.len() + 1 + (j - head.len() - 1)]@ == child_line(
                                margin,
                                db@,
                                db@[key@],
                                j - head.len() - 1,
                            ));
                        }
                    }
                }
            } else {
                let mut dot = indenter.clone();
                dot.append("  .");
                lines.push(dot);
                proof {
                    assert(lines@.len() == want.len());
                    assert forall|j: int| 0 <= j < lines@.len() implies (#[trigger] lines@[j])@
                        == want[j] by {
                        if j < head.len() {
                            assert(lines@[j] == head[j]);
                        }
                    }
                }
            }
        },
        None => {
            let mut line = get_key_text(key, false);
            line.append(" not found in map!");
            lines.push(line);
            proof {
                assert(lines@.len() == want.len());
                assert forall|j: int| 0 <= j < lines@.len() implies (#[trigger] lines@[j])@
                    == want[j] by {
                    if j < head.len() {
                        assert(lines@[j] == head[j]);
                    }
                }
            }
        },
    }
    lines
}

} // verus!
