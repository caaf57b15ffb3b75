//! The include graph and its depth-first traversal: each file is entered at
//! most once, resolved includes are inlined in place, and unresolved ones are
//! collected once each by their text.

use vstd::prelude::*;
use crate::directive::{classify, directive_of, pragma_once_token, Directive, DirectiveView};
use crate::format::{format_line, push_str};
use crate::text::{chars_of, remove_ws, string_of};

verus! {

/// Identifiers for distinct canonical paths, handed out in order of first sight.
pub struct PathArena {
    paths: Vec<String>,
}

impl View for PathArena {
    type V = Seq<Seq<char>>;

    closed spec fn view(&self) -> Seq<Seq<char>> {
        self.paths@.map_values(|p: String| p@)
    }
}

impl PathArena {
    /// No path has two identifiers.
    pub open spec fn wf(&self) -> bool {
        forall|i: int, j: int| 0 <= i < j < self@.len() ==> self@[i] != self@[j]
    }

    pub fn new() -> (r: PathArena)
        ensures
            r.wf(),
            r@.len() == 0,
    {
        let r = PathArena { paths: Vec::new() };
        assert(r@ =~= Seq::<Seq<char>>::empty());
        r
    }

    pub fn len(&self) -> (r: usize)
        ensures
            r == self@.len(),
    {
        self.paths.len()
    }

    pub fn path(&self, id: usize) -> (r: &String)
        requires
            id < self@.len(),
        ensures
            r@ == self@[id as int],
    {
        &self.paths[id]
    }

    /// The identifier of `p`: the one it already has, or a new one after all others.
    pub fn intern(&mut self, p: &str) -> (r: usize)
        requires
            old(self).wf(),
        ensures
            final(self).wf(),
            r < final(self)@.len(),
            final(self)@[r as int] == p@,
            old(self)@.contains(p@) ==> final(self)@ == old(self)@,
            !old(self)@.contains(p@) ==> final(self)@ == old(self)@.push(p@),
    {
        let s = string_of(chars_of(p).as_slice());
        let mut i: usize = 0;
        while i < self.paths.len()
            invariant
                i <= self@.len(),
                s@ == p@,
                self.wf(),
                self@ == old(self)@,
                forall|j: int| 0 <= j < i ==> self@[j] != p@,
            decreases self@.len() - i,
        {
            if self.paths[i] == s {
                assert(self@[i as int] == self.paths@[i as int]@);
                return i;
            }
            assert(self@[i as int] == self.paths@[i as int]@);
            i = i + 1;
        }
        let ghost i_end = i;
        self.paths.push(s);
        assert(self@ =~= old(self)@.push(p@));
        assert(!old(self)@.contains(p@)) by {
            if old(self)@.contains(p@) {
                let j = choose|j: int| 0 <= j < old(self)@.len() && old(self)@[j] == p@;
                assert(j < i_end);
            }
        }
        i
    }
}

/// One file's lines, and for each line the file its include resolved to, if any.
pub struct SourceFile {
    pub lines: Vec<String>,
    pub targets: Vec<Option<usize>>,
}

pub open spec fn file_wf(f: SourceFile, n: int) -> bool {
    &&& f.lines@.len() == f.targets@.len()
    &&& forall|i: int| 0 <= i < f.targets@.len() ==> (#[trigger] f.targets@[i] matches Some(t) ==> t < n)
}

/// Every file has a target slot per line, and every target names a file.
pub open spec fn graph_wf(files: Seq<SourceFile>) -> bool {
    forall|k: int| 0 <= k < files.len() ==> file_wf(#[trigger] files[k], files.len() as int)
}

pub open spec fn is_include(d: DirectiveView) -> bool {
    d is Local || d is SearchPath
}

/// The file that line `i` of file `k` brings in, if it is an include that resolved.
pub open spec fn edge(files: Seq<SourceFile>, k: int, i: int) -> Option<usize> {
    if is_include(directive_of(files[k].lines@[i]@)) {
        files[k].targets@[i]
    } else {
        None
    }
}

/// Line `i` of file `k` is an include that resolved to no file.
pub open spec fn is_external(files: Seq<SourceFile>, k: int, i: int) -> bool {
    is_include(directive_of(files[k].lines@[i]@)) && files[k].targets@[i] is None
}

pub open spec fn texts(v: Seq<String>) -> Seq<Seq<char>> {
    v.map_values(|s: String| s@)
}

/// The number of files not yet entered.
pub open spec fn count_false(s: Seq<bool>) -> nat
    decreases s.len(),
{
    if s.len() == 0 {
        0
    } else {
        count_false(s.drop_last()) + if s.last() {
            0nat
        } else {
            1nat
        }
    }
}

proof fn lemma_count_set(s: Seq<bool>, i: int)
    requires
        0 <= i < s.len(),
        !s[i],
    ensures
        count_false(s.update(i, true)) + 1 == count_false(s),
    decreases s.len(),
{
    let u = s.update(i, true);
    if i < s.len() - 1 {
        lemma_count_set(s.drop_last(), i);
        assert(u.drop_last() =~= s.drop_last().update(i, true));
    } else {
        assert(u.drop_last() =~= s.drop_last());
    }
}

/// What the traversal carries from line to line: the files entered so far,
/// the body so far, and the formatter's two flags.
pub struct Trace {
    pub visited: Seq<bool>,
    pub body: Seq<char>,
    pub ends_with_newline: bool,
    pub preserve: bool,
}

/// A plain line passed through the formatter: its piece is appended where
/// the fragment is not empty, and the newline flag follows it.
pub open spec fn plain_step(s: Trace, line: Seq<char>, enabled: bool) -> Trace {
    let (f, nl) = crate::format::format_spec(line, s.ends_with_newline, s.preserve, enabled);
    if f.len() == 0 {
        s
    } else {
        Trace {
            visited: s.visited,
            body: s.body + piece_of(line, s.ends_with_newline, s.preserve, enabled),
            ends_with_newline: nl,
            preserve: s.preserve,
        }
    }
}

/// Entering file `id` from state `s`: nothing where it was entered before,
/// else it is marked and its lines are walked from the first. `fuel` bounds
/// the nesting depth; the number of files is always enough.
pub open spec fn walk_file(files: Seq<SourceFile>, fuel: nat, s: Trace, id: int, enabled: bool) -> Trace
    decreases fuel, 0int,
{
    if fuel == 0 || !(0 <= id < s.visited.len()) || s.visited[id] {
        s
    } else {
        walk_lines(
            files,
            (fuel - 1) as nat,
            Trace {
                visited: s.visited.update(id, true),
                body: s.body,
                ends_with_newline: s.ends_with_newline,
                preserve: s.preserve,
            },
            id,
            0,
            enabled,
        )
    }
}

/// Walking the lines of file `id` from line `i` on: a pragma line is dropped,
/// a sentinel sets the preserve flag, a resolved include walks its target in
/// place, an unresolved one adds nothing to the body, and a plain line is formatted.
pub open spec fn walk_lines(
    files: Seq<SourceFile>,
    fuel: nat,
    s: Trace,
    id: int,
    i: int,
    enabled: bool,
) -> Trace
    decreases fuel, files[id].lines@.len() - i + 1,
{
    if !(0 <= id < files.len()) || i < 0 || i >= files[id].lines@.len() {
        s
    } else {
        let line = files[id].lines@[i]@;
        let next = match directive_of(line) {
            DirectiveView::PragmaOnce => s,
            DirectiveView::PreserveBegin => Trace {
                visited: s.visited,
                body: s.body,
                ends_with_newline: s.ends_with_newline,
                preserve: true,
            },
            DirectiveView::PreserveEnd => Trace {
                visited: s.visited,
                body: s.body,
                ends_with_newline: s.ends_with_newline,
                preserve: false,
            },
            DirectiveView::Plain { .. } => plain_step(s, line, enabled),
            _ => match files[id].targets@[i] {
                Some(t) => walk_file(files, fuel, s, t as int, enabled),
                None => s,
            },
        };
        walk_lines(files, fuel, next, id, i + 1, enabled)
    }
}

/// The state after the whole traversal from `root`: nothing entered at the
/// start, an empty body that counts as ending a line, preserve mode off.
pub open spec fn emitted(files: Seq<SourceFile>, root: usize, enabled: bool) -> Trace {
    walk_file(
        files,
        files.len(),
        Trace {
            visited: Seq::new(files.len(), |k: int| false),
            body: Seq::empty(),
            ends_with_newline: true,
            preserve: false,
        },
        root as int,
        enabled,
    )
}

/// `f` is reached from `root` through resolved includes.
pub open spec fn reachable(files: Seq<SourceFile>, root: usize, f: usize) -> bool {
    exists|c: Seq<usize>| #[trigger] is_include_chain(files, c) && c[0] == root && c.last() == f
}

proof fn lemma_chain_extend(files: Seq<SourceFile>, root: usize, a: usize, b: usize, i: int)
    requires
        reachable(files, root, a),
        0 <= i < files[a as int].lines@.len(),
        edge(files, a as int, i) == Some(b),
    ensures
        reachable(files, root, b),
{
    let c = choose|c: Seq<usize>| #[trigger] is_include_chain(files, c) && c[0] == root && c.last() == a;
    let d = c.push(b);
    assert forall|j: int| 0 <= j < d.len() - 1 implies links(files, #[trigger] d[j], d[j + 1]) by {
        if j < c.len() - 1 {
            assert(d[j] == c[j] && d[j + 1] == c[j + 1]);
            assert(links(files, c[j], c[j + 1]));
        } else {
            assert(d[j] == a && d[j + 1] == b);
        }
    }
    assert(is_include_chain(files, d));
}

proof fn lemma_root_reachable(files: Seq<SourceFile>, root: usize)
    ensures
        reachable(files, root, root),
{
    let c = seq![root];
    assert(is_include_chain(files, c));
}

proof fn lemma_count_le_len(s: Seq<bool>)
    ensures
        count_false(s) <= s.len(),
    decreases s.len(),
{
    if s.len() > 0 {
        lemma_count_le_len(s.drop_last());
    }
}

spec fn trace_of(st: Walk) -> Trace {
    Trace {
        visited: st.visited@,
        body: st.body@,
        ends_with_newline: st.ends_with_newline,
        preserve: st.preserve,
    }
}

/// What a finished traversal hands back.
pub struct Bundle {
    /// The emitted text of all entered files, in depth-first pre-order.
    pub body: String,
    /// The text of each unresolved include line, once each.
    pub externals: Vec<String>,
    /// The entered files, in the order they were entered.
    pub order: Vec<usize>,
    /// Whether the body ends with a newline.
    pub ends_with_newline: bool,
    /// The pieces the body is made of, in order.
    pub pieces: Ghost<Seq<Seq<char>>>,
    /// For each piece, the file and line it was formatted from.
    pub sources: Ghost<Seq<(int, int)>>,
}

/// What a retained line adds to the body: its formatted fragment, followed by
/// a space where the fragment leaves the output without a newline.
pub open spec fn piece_of(line: Seq<char>, ends_with_newline: bool, preserve: bool, enabled: bool) -> Seq<char> {
    let (f, nl) = crate::format::format_spec(line, ends_with_newline, preserve, enabled);
    if nl {
        f
    } else {
        f.push(' ')
    }
}

/// `piece` was formatted from plain line `i` of file `k`, in some state of the formatter.
pub open spec fn piece_from(files: Seq<SourceFile>, k: int, i: int, piece: Seq<char>, enabled: bool) -> bool {
    &&& 0 <= k < files.len()
    &&& 0 <= i < files[k].lines@.len()
    &&& directive_of(files[k].lines@[i]@) is Plain
    &&& piece.len() > 0
    &&& exists|e: bool, p: bool| piece == piece_of(files[k].lines@[i]@, e, p, enabled)
}

struct Walk {
    enabled: bool,
    pieces: Ghost<Seq<Seq<char>>>,
    sources: Ghost<Seq<(int, int)>>,
    visited: Vec<bool>,
    order: Vec<usize>,
    body: Vec<char>,
    externals: Vec<String>,
    ends_with_newline: bool,
    preserve: bool,
}

/// `x` is the text of an unresolved include line of an entered file.
pub open spec fn external_in(files: Seq<SourceFile>, visited: Seq<bool>, x: Seq<char>) -> bool {
    exists|k: int, i: int|
        0 <= k < files.len() && visited[k] && 0 <= i < files[k].lines@.len()
            && #[trigger] is_external(files, k, i) && files[k].lines@[i]@ == x
}

spec fn walk_inv(files: Seq<SourceFile>, st: Walk) -> bool {
    let n = files.len();
    &&& st.visited@.len() == n
    &&& st.order@.no_duplicates()
    &&& forall|j: int| 0 <= j < st.order@.len() ==> #[trigger] st.order@[j] < n
    &&& forall|k: int| 0 <= k < n ==> (#[trigger] st.visited@[k] <==> st.order@.contains(k as usize))
    &&& texts(st.externals@).no_duplicates()
    &&& forall|e: int|
        0 <= e < st.externals@.len() ==> external_in(files, st.visited@, #[trigger] st.externals@[e]@)
    &&& st.body@ == st.pieces@.flatten()
    &&& st.pieces@.len() == st.sources@.len()
    &&& forall|m: int|
        0 <= m < st.sources@.len() ==> st.visited@[(#[trigger] st.sources@[m]).0] && piece_from(
            files,
            st.sources@[m].0,
            st.sources@[m].1,
            st.pieces@[m],
            st.enabled,
        )
}

/// Every include line of file `k` is accounted for: the file it resolved to
/// is entered, or its text is among the external references.
pub open spec fn closed_file(
    files: Seq<SourceFile>,
    visited: Seq<bool>,
    externals: Seq<Seq<char>>,
    k: int,
    upto: int,
) -> bool {
    forall|i: int|
        0 <= i < upto ==> {
            &&& (#[trigger] edge(files, k, i) matches Some(t) ==> visited[t as int])
            &&& (is_external(files, k, i) ==> externals.contains(files[k].lines@[i]@))
        }
}

fn contains_text(v: &Vec<String>, s: &String) -> (r: bool)
    ensures
        r == texts(v@).contains(s@),
{
    let mut j: usize = 0;
    while j < v.len()
        invariant
            j <= v@.len(),
            forall|m: int| 0 <= m < j ==> v@[m]@ != s@,
        decreases v@.len() - j,
    {
        if v[j] == *s {
            assert(texts(v@)[j as int] == s@);
            return true;
        }
        j = j + 1;
    }
    assert forall|m: int| 0 <= m < texts(v@).len() implies texts(v@)[m] != s@ by {
        assert(texts(v@)[m] == v@[m]@);
    }
    false
}

fn add_external(files: &Vec<SourceFile>, st: &mut Walk, k: usize, i: usize)
    requires
        graph_wf(files@),
        walk_inv(files@, *old(st)),
        k < files@.len(),
        old(st).visited@[k as int],
        i < files@[k as int].lines@.len(),
        is_external(files@, k as int, i as int),
    ensures
        walk_inv(files@, *final(st)),
        final(st).visited == old(st).visited,
        final(st).order == old(st).order,
        final(st).body == old(st).body,
        final(st).pieces == old(st).pieces,
        final(st).sources == old(st).sources,
        final(st).enabled == old(st).enabled,
        final(st).ends_with_newline == old(st).ends_with_newline,
        final(st).preserve == old(st).preserve,
        forall|x: Seq<char>| texts(old(st).externals@).contains(x) ==> texts(final(st).externals@).contains(x),
        texts(final(st).externals@).contains(files@[k as int].lines@[i as int]@),
{
    let line = &files[k].lines[i];
    if contains_text(&st.externals, line) {
        return;
    }
    let ghost before = st.externals@;
    st.externals.push(line.clone());
    assert(texts(st.externals@) =~= texts(before).push(line@));
    assert forall|x: Seq<char>| texts(before).contains(x) implies texts(st.externals@).contains(x) by {
        let m = choose|m: int| 0 <= m < texts(before).len() && texts(before)[m] == x;
        assert(texts(st.externals@)[m] == x);
    }
    assert(texts(st.externals@)[before.len() as int] == line@);
    assert forall|e: int| 0 <= e < st.externals@.len() implies external_in(
        files@,
        st.visited@,
        #[trigger] st.externals@[e]@,
    ) by {
        if e == before.len() {
            assert(st.externals@[e]@ == files@[k as int].lines@[i as int]@);
            assert(is_external(files@, k as int, i as int));
        } else {
            assert(st.externals@[e] == before[e]);
        }
    }
}

proof fn lemma_closed_mono(
    files: Seq<SourceFile>,
    v1: Seq<bool>,
    e1: Seq<Seq<char>>,
    v2: Seq<bool>,
    e2: Seq<Seq<char>>,
    k: int,
    upto: int,
)
    requires
        graph_wf(files),
        0 <= k < files.len(),
        upto <= files[k].lines@.len(),
        v1.len() == files.len(),
        closed_file(files, v1, e1, k, upto),
        forall|m: int| 0 <= m < v1.len() && v1[m] ==> v2[m],
        forall|x: Seq<char>| e1.contains(x) ==> e2.contains(x),
    ensures
        closed_file(files, v2, e2, k, upto),
{
    assert forall|i: int| 0 <= i < upto implies {
        &&& (#[trigger] edge(files, k, i) matches Some(t) ==> v2[t as int])
        &&& (is_external(files, k, i) ==> e2.contains(files[k].lines@[i]@))
    } by {
        assert(file_wf(files[k], files.len() as int));
        if let Some(t) = edge(files, k, i) {
            assert(files[k].targets@[i] == Some(t));
            assert(v1[t as int]);
        }
        if is_external(files, k, i) {
            assert(e1.contains(files[k].lines@[i]@));
        }
    }
}

fn emit(files: &Vec<SourceFile>, st: &mut Walk, k: usize, i: usize)
    requires
        graph_wf(files@),
        walk_inv(files@, *old(st)),
        k < files@.len(),
        old(st).visited@[k as int],
        i < files@[k as int].lines@.len(),
        directive_of(files@[k as int].lines@[i as int]@) is Plain,
    ensures
        walk_inv(files@, *final(st)),
        final(st).visited == old(st).visited,
        final(st).order == old(st).order,
        final(st).externals == old(st).externals,
        final(st).preserve == old(st).preserve,
        final(st).enabled == old(st).enabled,
        trace_of(*final(st)) == plain_step(trace_of(*old(st)), files@[k as int].lines@[i as int]@, old(st).enabled),
{
    let line = &files[k].lines[i];
    let (frag, nl) = format_line(line.as_str(), st.ends_with_newline, st.preserve, st.enabled);
    let ghost piece = piece_of(line@, st.ends_with_newline, st.preserve, st.enabled);
    let chars = chars_of(frag.as_str());
    if chars.len() > 0 {
        let ghost before = st.body@;
        push_str(&mut st.body, &chars);
        if !nl {
            st.body.push(' ');
            st.ends_with_newline = false;
        } else {
            st.ends_with_newline = true;
        }
        assert(st.body@ =~= before + piece);
        proof {
            st.pieces@.lemma_flatten_push(piece);
            let ghost old_sources = st.sources@;
            let ghost old_pieces = st.pieces@;
            st.pieces@ = st.pieces@.push(piece);
            st.sources@ = st.sources@.push((k as int, i as int));
            assert(piece_from(files@, k as int, i as int, piece, st.enabled));
            assert forall|m: int| 0 <= m < st.sources@.len() implies st.visited@[(
            #[trigger] st.sources@[m]).0] && piece_from(
                files@,
                st.sources@[m].0,
                st.sources@[m].1,
                st.pieces@[m],
                st.enabled,
            ) by {
                if m < old_sources.len() {
                    assert(st.sources@[m] == old_sources[m]);
                    assert(st.pieces@[m] == old_pieces[m]);
                }
            }
        }
    }
}

fn walk(
    files: &Vec<SourceFile>,
    id: usize,
    st: &mut Walk,
    Ghost(fuel): Ghost<nat>,
    Ghost(root): Ghost<usize>,
)
    requires
        graph_wf(files@),
        id < files@.len(),
        walk_inv(files@, *old(st)),
        fuel >= count_false(old(st).visited@),
        reachable(files@, root, id),
        forall|j: int| 0 <= j < old(st).order@.len() ==> reachable(files@, root, #[trigger] old(st).order@[j]),
    ensures
        walk_inv(files@, *final(st)),
        trace_of(*final(st)) == walk_file(files@, fuel, trace_of(*old(st)), id as int, old(st).enabled),
        forall|j: int| 0 <= j < final(st).order@.len() ==> reachable(files@, root, #[trigger] final(st).order@[j]),
        final(st).enabled == old(st).enabled,
        final(st).visited@[id as int],
        !old(st).visited@[id as int] ==> old(st).order@.len() < final(st).order@.len()
            && final(st).order@[old(st).order@.len() as int] == id,
        count_false(final(st).visited@) <= count_false(old(st).visited@),
        forall|k: int| 0 <= k < files@.len() && old(st).visited@[k] ==> final(st).visited@[k],
        old(st).order@.len() <= final(st).order@.len(),
        forall|j: int| 0 <= j < old(st).order@.len() ==> final(st).order@[j] == old(st).order@[j],
        forall|x: Seq<char>|
            texts(old(st).externals@).contains(x) ==> texts(final(st).externals@).contains(x),
        forall|j: int|
            old(st).order@.len() <= j < final(st).order@.len() ==> closed_file(
                files@,
                final(st).visited@,
                texts(final(st).externals@),
                #[trigger] final(st).order@[j] as int,
                files@[final(st).order@[j] as int].lines@.len() as int,
            ),
    decreases count_false(old(st).visited@),
{
    let ghost st0 = *st;
    let n_files: usize = files.len();
    if st.visited[id] {
        return;
    }
    let ghost old_len = st.order@.len();
    proof {
        lemma_count_set(st.visited@, id as int);
    }
    assert(fuel >= 1);
    st.visited.set(id, true);
    st.order.push(id);
    assert forall|k: int| 0 <= k < files@.len() implies (#[trigger] st.visited@[k]
        <==> st.order@.contains(k as usize)) by {
        if k != id {
            assert(k < n_files);
            assert((k as usize) as int == k);
            if st.order@.contains(k as usize) {
                let j = choose|j: int| 0 <= j < st.order@.len() && st.order@[j] == k as usize;
                assert(st.order@[old_len as int] == id);
                assert(j != old_len);
                assert(st0.order@[j] == k as usize);
            }
            if st0.order@.contains(k as usize) {
                let j = choose|j: int| 0 <= j < st0.order@.len() && st0.order@[j] == k as usize;
                assert(st.order@[j] == k as usize);
            }
        } else {
            assert(st.order@[old_len as int] == id);
        }
    }
    assert(!st0.order@.contains(id));
    assert forall|m: int| 0 <= m < st.sources@.len() implies st.visited@[(
    #[trigger] st.sources@[m]).0] by {
        assert(st0.visited@[st.sources@[m].0]);
    }
    assert forall|e: int| 0 <= e < st.externals@.len() implies external_in(
        files@,
        st.visited@,
        #[trigger] st.externals@[e]@,
    ) by {
        assert(external_in(files@, st0.visited@, st.externals@[e]@));
        let (k, i) = choose|k: int, i: int|
            0 <= k < files@.len() && st0.visited@[k] && 0 <= i < files@[k].lines@.len()
                && #[trigger] is_external(files@, k, i) && files@[k].lines@[i]@
                == st.externals@[e]@;
        assert(st.visited@[k]);
    }
    let n_lines = files[id].lines.len();
    assert(file_wf(files@[id as int], files@.len() as int));
    let mut i: usize = 0;
    while i < n_lines
        invariant
            graph_wf(files@),
            id < files@.len(),
            n_lines == files@[id as int].lines@.len(),
            file_wf(files@[id as int], files@.len() as int),
            i <= n_lines,
            walk_inv(files@, *st),
            st.enabled == st0.enabled,
            st.visited@[id as int],
            count_false(st.visited@) < count_false(st0.visited@),
            count_false(st.visited@) < count_false(old(st).visited@),
            count_false(st.visited@) <= fuel - 1,
            fuel >= 1,
            st0 == *old(st),
            reachable(files@, root, id),
            forall|j: int| 0 <= j < st.order@.len() ==> reachable(files@, root, #[trigger] st.order@[j]),
            walk_lines(files@, (fuel - 1) as nat, trace_of(*st), id as int, i as int, st.enabled)
                == walk_file(files@, fuel, trace_of(st0), id as int, st0.enabled),
            forall|k: int| 0 <= k < files@.len() && st0.visited@[k] ==> st.visited@[k],
            old_len < st.order@.len(),
            old_len == st0.order@.len(),
            st.order@[old_len as int] == id,
            forall|j: int| 0 <= j < old_len ==> st.order@[j] == st0.order@[j],
            forall|x: Seq<char>|
                texts(st0.externals@).contains(x) ==> texts(st.externals@).contains(x),
            forall|j: int|
                old_len < j < st.order@.len() ==> closed_file(
                    files@,
                    st.visited@,
                    texts(st.externals@),
                    #[trigger] st.order@[j] as int,
                    files@[st.order@[j] as int].lines@.len() as int,
                ),
            closed_file(files@, st.visited@, texts(st.externals@), id as int, i as int),
        decreases n_lines - i,
    {
        let ghost st1 = *st;
        let d = classify(files[id].lines[i].as_str());
        let ghost line = files@[id as int].lines@[i as int]@;
        match d {
            Directive::PragmaOnce => {},
            Directive::PreserveBegin => {
                st.preserve = true;
            },
            Directive::PreserveEnd => {
                st.preserve = false;
            },
            Directive::Local { .. } | Directive::SearchPath { .. } => {
                match files[id].targets[i] {
                    Some(t) => {
                        proof {
                            assert(edge(files@, id as int, i as int) == Some(t));
                            lemma_chain_extend(files@, root, id, t, i as int);
                        }
                        walk(files, t, st, Ghost((fuel - 1) as nat), Ghost(root));
                    },
                    None => {
                        add_external(files, st, id, i);
                    },
                }
            },
            Directive::Plain { .. } => {
                emit(files, st, id, i);
            },
        }
        assert(walk_lines(files@, (fuel - 1) as nat, trace_of(st1), id as int, i as int, st.enabled)
            == walk_lines(files@, (fuel - 1) as nat, trace_of(*st), id as int, i as int + 1, st.enabled));
        proof {
            assert forall|j: int|
                old_len < j < st.order@.len() implies closed_file(
                files@,
                st.visited@,
                texts(st.externals@),
                #[trigger] st.order@[j] as int,
                files@[st.order@[j] as int].lines@.len() as int,
            ) by {
                if j < st1.order@.len() {
                    assert(st1.order@[j] == st.order@[j]);
                    lemma_closed_mono(
                        files@,
                        st1.visited@,
                        texts(st1.externals@),
                        st.visited@,
                        texts(st.externals@),
                        st.order@[j] as int,
                        files@[st.order@[j] as int].lines@.len() as int,
                    );
                }
            }
            lemma_closed_mono(
                files@,
                st1.visited@,
                texts(st1.externals@),
                st.visited@,
                texts(st.externals@),
                id as int,
                i as int,
            );
            assert(closed_file(files@, st.visited@, texts(st.externals@), id as int, i as int + 1))
                by {
                assert forall|l: int| 0 <= l < i + 1 implies {
                    &&& (#[trigger] edge(files@, id as int, l) matches Some(t) ==> st.visited@[t as int])
                    &&& (is_external(files@, id as int, l) ==> texts(st.externals@).contains(
                        files@[id as int].lines@[l]@,
                    ))
                } by {
                    if l < i {
                        assert(closed_file(files@, st.visited@, texts(st.externals@), id as int, i as int));
                    }
                }
            }
        }
        i = i + 1;
    }
}

/// Whether `files` is a well-formed graph: the test a caller makes before `bundle`.
pub fn check_graph(files: &Vec<SourceFile>) -> (r: bool)
    ensures
        r == graph_wf(files@),
{
    let n = files.len();
    let mut k: usize = 0;
    while k < n
        invariant
            n == files@.len(),
            k <= n,
            forall|m: int| 0 <= m < k ==> file_wf(#[trigger] files@[m], n as int),
        decreases n - k,
    {
        let f = &files[k];
        if f.lines.len() != f.targets.len() {
            return false;
        }
        let mut i: usize = 0;
        while i < f.targets.len()
            invariant
                n == files@.len(),
                k < n,
                *f == files@[k as int],
                f.lines@.len() == f.targets@.len(),
                forall|m: int| 0 <= m < k ==> file_wf(#[trigger] files@[m], n as int),
                i <= f.targets@.len(),
                forall|j: int| 0 <= j < i ==> (#[trigger] f.targets@[j] matches Some(t) ==> t < n),
            decreases f.targets@.len() - i,
        {
            if let Some(t) = f.targets[i] {
                if t >= n {
                    assert(f.targets@[i as int] == Some(t));
                    assert(!file_wf(files@[k as int], n as int));
                    return false;
                }
            }
            i = i + 1;
        }
        k = k + 1;
    }
    true
}

/// `x` is the text of an unresolved include line of one of the files in `order`.
pub open spec fn external_of(files: Seq<SourceFile>, order: Seq<usize>, x: Seq<char>) -> bool {
    exists|k: int, i: int|
        0 <= k < files.len() && order.contains(k as usize) && 0 <= i < files[k].lines@.len()
            && #[trigger] is_external(files, k, i) && files[k].lines@[i]@ == x
}

/// What `bundle` guarantees of its result: the traversal is closed, the
/// external references are exactly the unresolved include lines of entered
/// files, once each, and the body is made of pieces formatted from plain
/// lines of entered files.
pub open spec fn bundle_spec(files: Seq<SourceFile>, root: usize, format_enabled: bool, b: Bundle) -> bool {
    &&& b.body@ == emitted(files, root, format_enabled).body
    &&& b.ends_with_newline == emitted(files, root, format_enabled).ends_with_newline
    &&& forall|j: int| 0 <= j < b.order@.len() ==> reachable(files, root, #[trigger] b.order@[j])
    &&& traversal_closed(files, root, b.order@)
    &&& forall|j: int, i: int|
        0 <= j < b.order@.len() && 0 <= i < files[b.order@[j] as int].lines@.len()
            && #[trigger] is_external(files, b.order@[j] as int, i) ==> texts(
            b.externals@,
        ).contains(files[b.order@[j] as int].lines@[i]@)
    &&& texts(b.externals@).no_duplicates()
    &&& forall|e: int|
        0 <= e < b.externals@.len() ==> external_of(files, b.order@, #[trigger] b.externals@[e]@)
    &&& b.body@ == b.pieces@.flatten()
    &&& b.pieces@.len() == b.sources@.len()
    &&& forall|m: int|
        0 <= m < b.sources@.len() ==> b.order@.contains((#[trigger] b.sources@[m]).0 as usize)
            && piece_from(files, b.sources@[m].0, b.sources@[m].1, b.pieces@[m], format_enabled)
}

/// Walks the include graph depth-first from `root`, entering each file at
/// most once, inlining resolved includes where they stand, and collecting
/// the text of unresolved ones.
pub fn bundle(files: &Vec<SourceFile>, root: usize, format_enabled: bool) -> (r: Bundle)
    requires
        graph_wf(files@),
        root < files@.len(),
    ensures
        bundle_spec(files@, root, format_enabled, r),
{
    let n = files.len();
    let mut visited: Vec<bool> = Vec::new();
    while visited.len() < n
        invariant
            n == files@.len(),
            visited@.len() <= n,
            forall|k: int| 0 <= k < visited@.len() ==> !visited@[k],
        decreases n - visited@.len(),
    {
        visited.push(false);
    }
    let mut st = Walk {
        visited,
        order: Vec::new(),
        body: Vec::new(),
        externals: Vec::new(),
        ends_with_newline: true,
        preserve: false,
        enabled: format_enabled,
        pieces: Ghost(Seq::empty()),
        sources: Ghost(Seq::empty()),
    };
    assert(st.visited@ =~= Seq::new(files@.len(), |k: int| false));
    assert(st.body@ =~= st.pieces@.flatten());
    assert(texts(st.externals@) =~= Seq::<Seq<char>>::empty());
    proof {
        lemma_count_le_len(st.visited@);
        lemma_root_reachable(files@, root);
    }
    walk(files, root, &mut st, Ghost(n as nat), Ghost(root));
    assert(st.body@ == emitted(files@, root, format_enabled).body);
    assert(st.order@[0] == root);
    assert forall|j: int, i: int|
        0 <= j < st.order@.len() && 0 <= i < files@[st.order@[j] as int].lines@.len()
            && #[trigger] is_external(files@, st.order@[j] as int, i) implies texts(
        st.externals@,
    ).contains(files@[st.order@[j] as int].lines@[i]@) by {
        assert(closed_file(
            files@,
            st.visited@,
            texts(st.externals@),
            st.order@[j] as int,
            files@[st.order@[j] as int].lines@.len() as int,
        ));
        assert(edge(files@, st.order@[j] as int, i) is None);
    }
    assert forall|j: int, i: int|
        0 <= j < st.order@.len() && 0 <= i < files@[st.order@[j] as int].lines@.len() implies (
        #[trigger] edge(files@, st.order@[j] as int, i) matches Some(t) ==> st.order@.contains(t)) by {
        assert(closed_file(
            files@,
            st.visited@,
            texts(st.externals@),
            st.order@[j] as int,
            files@[st.order@[j] as int].lines@.len() as int,
        ));
        let k = st.order@[j] as int;
        assert(file_wf(files@[k], n as int));
        if let Some(t) = edge(files@, k, i) {
            assert(files@[k].targets@[i] == Some(t));
            assert(st.visited@[t as int]);
        }
    }
    assert forall|e: int| 0 <= e < st.externals@.len() implies external_of(
        files@,
        st.order@,
        #[trigger] st.externals@[e]@,
    ) by {
        assert(external_in(files@, st.visited@, st.externals@[e]@));
        let (k, i) = choose|k: int, i: int|
            0 <= k < files@.len() && st.visited@[k] && 0 <= i < files@[k].lines@.len()
                && #[trigger] is_external(files@, k, i) && files@[k].lines@[i]@
                == st.externals@[e]@;
        assert(st.order@.contains(k as usize));
    }
    assert forall|m: int| 0 <= m < st.sources@.len() implies st.order@.contains(
        (#[trigger] st.sources@[m]).0 as usize,
    ) by {
        let k = st.sources@[m].0;
        assert(st.visited@[k]);
    }
    Bundle {
        body: string_of(st.body.as_slice()),
        externals: st.externals,
        order: st.order,
        ends_with_newline: st.ends_with_newline,
        pieces: st.pieces,
        sources: st.sources,
    }
}

/// A chain of files from `p[0]` where each next file is brought in by a
/// resolved include of the one before.
pub open spec fn is_include_chain(files: Seq<SourceFile>, p: Seq<usize>) -> bool {
    &&& p.len() > 0
    &&& forall|j: int| 0 <= j < p.len() - 1 ==> links(files, #[trigger] p[j], p[j + 1])
}

/// Some line of file `a` is an include that resolved to file `b`.
pub open spec fn links(files: Seq<SourceFile>, a: usize, b: usize) -> bool {
    exists|i: int| 0 <= i < files[a as int].lines@.len() && #[trigger] edge(files, a as int, i) == Some(b)
}

/// What a traversal from `root` leaves behind: `root` entered first, no file
/// entered twice, and every resolved include of an entered file entered too.
pub open spec fn traversal_closed(files: Seq<SourceFile>, root: usize, order: Seq<usize>) -> bool {
    &&& order.len() > 0
    &&& order[0] == root
    &&& order.no_duplicates()
    &&& forall|j: int| 0 <= j < order.len() ==> #[trigger] order[j] < files.len()
    &&& forall|j: int, i: int|
        0 <= j < order.len() && 0 <= i < files[order[j] as int].lines@.len() ==> (
        #[trigger] edge(files, order[j] as int, i) matches Some(t) ==> order.contains(t))
}

/// Every file reachable from the root through resolved includes, along any
/// number of distinct chains, is entered exactly once.
pub proof fn lemma_reachable_entered_once(
    files: Seq<SourceFile>,
    root: usize,
    order: Seq<usize>,
    chain: Seq<usize>,
)
    requires
        traversal_closed(files, root, order),
        is_include_chain(files, chain),
        chain[0] == root,
    ensures
        exists|j: int|
            0 <= j < order.len() && order[j] == chain.last() && forall|j2: int|
                0 <= j2 < order.len() && order[j2] == chain.last() ==> j2 == j,
    decreases chain.len(),
{
    if chain.len() == 1 {
        assert(order[0] == chain.last());
    } else {
        let prev = chain.drop_last();
        assert(is_include_chain(files, prev)) by {
            assert forall|j: int| 0 <= j < prev.len() - 1 implies links(files, #[trigger] prev[j], prev[j + 1]) by {
                assert(prev[j] == chain[j] && prev[j + 1] == chain[j + 1]);
            }
        }
        lemma_reachable_entered_once(files, root, order, prev);
        let jp = choose|j: int| 0 <= j < order.len() && order[j] == prev.last();
        let l = chain.len() - 2;
        assert(prev.last() == chain[l]);
        assert(links(files, chain[l], chain[l + 1]));
        let i = choose|i: int|
            0 <= i < files[chain[l] as int].lines@.len() && #[trigger] edge(files, chain[l] as int, i)
                == Some(chain[l + 1]);
        assert(edge(files, order[jp] as int, i) == Some(chain.last()));
        assert(order.contains(chain.last()));
    }
}

/// A `#pragma once` line, in any spacing, never contributes to the body.
pub proof fn lemma_pragma_never_emitted(files: Seq<SourceFile>, k: int, i: int)
    requires
        0 <= k < files.len(),
        0 <= i < files[k].lines@.len(),
        remove_ws(files[k].lines@[i]@) == pragma_once_token(),
    ensures
        forall|piece: Seq<char>, enabled: bool| !piece_from(files, k, i, piece, enabled),
{
}

} // verus!
