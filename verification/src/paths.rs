//! Paths as text: the `.zg/` layout under an index root, components as `std::path` reads them
//! on Unix, relative paths, and the ancestor chain that index roots are looked up along.
//!
//! Reading the file system (does a path exist, is it a directory, is it an index root) is
//! left to the caller; the functions here decide from what it found.
use vstd::prelude::*;

use crate::text::{chars_of, pieces, push_chars, split_pieces, string_of, views};

verus! {

/// One component of a path.
#[derive(Clone, Debug)]
pub enum PathPart {
    Root,
    Cur,
    Parent,
    Normal(Vec<char>),
}

/// The spec-level form of a path component.
pub enum PartView {
    Root,
    Cur,
    Parent,
    Normal(Seq<char>),
}

impl View for PathPart {
    type V = PartView;

    open spec fn view(&self) -> PartView {
        match self {
            PathPart::Root => PartView::Root,
            PathPart::Cur => PartView::Cur,
            PathPart::Parent => PartView::Parent,
            PathPart::Normal(name) => PartView::Normal(name@),
        }
    }
}

/// The components named by the `/`-separated segments `segs` from index `i` on: empty
/// segments vanish, `.` vanishes except as the first segment of a relative path, `..` is a
/// parent step.
pub open spec fn parts_from(segs: Seq<Seq<char>>, i: int, absolute: bool) -> Seq<PartView>
    decreases segs.len() - i,
{
    if i >= segs.len() || i < 0 {
        Seq::empty()
    } else {
        let seg = segs[i];
        let rest = parts_from(segs, i + 1, absolute);
        if seg.len() == 0 {
            rest
        } else if seg == seq!['.'] {
            if i == 0 && !absolute {
                seq![PartView::Cur] + rest
            } else {
                rest
            }
        } else if seg == seq!['.', '.'] {
            seq![PartView::Parent] + rest
        } else {
            seq![PartView::Normal(seg)] + rest
        }
    }
}

/// Whether a path starts at the file-system root.
pub open spec fn is_absolute(path: Seq<char>) -> bool {
    path.len() > 0 && path[0] == '/'
}

/// The components of a path, as `Path::components` yields them on Unix.
pub open spec fn components(path: Seq<char>) -> Seq<PartView> {
    let absolute = is_absolute(path);
    (if absolute { seq![PartView::Root] } else { Seq::empty() }) + parts_from(
        pieces(path, '/'),
        0,
        absolute,
    )
}

/// The text of one component.
pub open spec fn part_text(part: PartView) -> Seq<char> {
    match part {
        PartView::Root => "/"@,
        PartView::Cur => "."@,
        PartView::Parent => ".."@,
        PartView::Normal(name) => name,
    }
}

/// The text of a component sequence: the root, then the other components joined by `/`.
pub open spec fn parts_text(parts: Seq<PartView>) -> Seq<char>
    decreases parts.len(),
{
    if parts.len() == 0 {
        Seq::empty()
    } else {
        let prev = parts_text(parts.drop_last());
        let sep = if parts.len() == 1 || parts[parts.len() - 2] == PartView::Root {
            Seq::empty()
        } else {
            "/"@
        };
        prev + sep + part_text(parts.last())
    }
}

/// Splits a path into its components.
pub fn path_parts(path: &str) -> (r: Vec<PathPart>)
    ensures
        r@.map_values(|p: PathPart| p@) == components(path@),
{
    let chars = chars_of(path);
    let absolute = chars.len() > 0 && chars[0] == '/';
    let segs = split_pieces(chars.as_slice(), '/');
    let mut tail: Vec<PathPart> = Vec::new();
    let mut i: usize = segs.len();
    let ghost sv = views(segs@);
    assert(tail@.map_values(|p: PathPart| p@) =~= parts_from(sv, i as int, absolute));
    while i > 0
        invariant
            i <= segs@.len(),
            sv == views(segs@),
            tail@.map_values(|p: PathPart| p@) == parts_from(sv, i as int, absolute),
        decreases i,
    {
        i = i - 1;
        let seg = &segs[i];
        let ghost before = tail@.map_values(|p: PathPart| p@);
        assert(sv[i as int] == seg@);
        if seg.len() == 0 {
        } else if seg.len() == 1 && seg[0] == '.' {
            assert(seg@ =~= seq!['.']);
            if i == 0 && !absolute {
                tail.insert(0, PathPart::Cur);
                assert(tail@.map_values(|p: PathPart| p@) =~= seq![PartView::Cur] + before);
            }
        } else if seg.len() == 2 && seg[0] == '.' && seg[1] == '.' {
            assert(seg@ =~= seq!['.', '.']);
            tail.insert(0, PathPart::Parent);
            assert(tail@.map_values(|p: PathPart| p@) =~= seq![PartView::Parent] + before);
        } else {
            assert(seg@ != seq!['.']);
            assert(seg@ != seq!['.', '.']);
            let name = seg.clone();
            tail.insert(0, PathPart::Normal(name));
            assert(tail@.map_values(|p: PathPart| p@) =~= seq![PartView::Normal(seg@)] + before);
        }
    }
    if absolute {
        let ghost before = tail@.map_values(|p: PathPart| p@);
        tail.insert(0, PathPart::Root);
        assert(tail@.map_values(|p: PathPart| p@) =~= seq![PartView::Root] + before);
    }
    assert(absolute == is_absolute(path@));
    tail
}

} // verus!

verus! {

/// The spec-level components held by a vector of components.
pub open spec fn part_views(parts: Seq<PathPart>) -> Seq<PartView> {
    parts.map_values(|p: PathPart| p@)
}

fn is_root_part(part: &PathPart) -> (r: bool)
    ensures
        r == (part@ == PartView::Root),
{
    match part {
        PathPart::Root => true,
        _ => false,
    }
}

fn push_part(s: &mut String, part: &PathPart)
    ensures
        final(s)@ == old(s)@ + part_text(part@),
{
    match part {
        PathPart::Root => crate::text::push_str(s, "/"),
        PathPart::Cur => crate::text::push_str(s, "."),
        PathPart::Parent => crate::text::push_str(s, ".."),
        PathPart::Normal(name) => push_chars(s, name.as_slice()),
    }
}

/// Renders the first `n` components of `parts` as a path.
pub fn render_parts(parts: &Vec<PathPart>, n: usize) -> (r: String)
    requires
        n <= parts@.len(),
    ensures
        r@ == parts_text(part_views(parts@).take(n as int)),
{
    let mut s = String::new();
    let mut i: usize = 0;
    assert(part_views(parts@).take(0) =~= Seq::<PartView>::empty());
    while i < n
        invariant
            i <= n <= parts@.len(),
            s@ == parts_text(part_views(parts@).take(i as int)),
        decreases n - i,
    {
        let ghost ps = part_views(parts@).take(i + 1);
        assert(ps.drop_last() =~= part_views(parts@).take(i as int));
        if i > 0 && !is_root_part(&parts[i - 1]) {
            crate::text::push_str(&mut s, "/");
        }
        push_part(&mut s, &parts[i]);
        assert(ps.last() == parts@[i as int]@);
        if i > 0 {
            assert(ps[ps.len() - 2] == parts@[i - 1]@);
        }
        i = i + 1;
    }
    s
}

/// `base` with the relative path `rel` appended, as `Path::join` does on Unix: an absolute
/// `rel` replaces `base`; a separator is added unless `base` is empty or already ends in one.
pub open spec fn joined(base: Seq<char>, rel: Seq<char>) -> Seq<char> {
    if is_absolute(rel) {
        rel
    } else if base.len() == 0 || base.last() == '/' {
        base + rel
    } else {
        base + "/"@ + rel
    }
}

/// Appends `rel` to `base` as `Path::join` does.
pub fn join_path(base: &str, rel: &str) -> (r: String)
    ensures
        r@ == joined(base@, rel@),
{
    let b = chars_of(base);
    let r = chars_of(rel);
    let mut out = String::new();
    if r.len() > 0 && r[0] == '/' {
        push_chars(&mut out, r.as_slice());
        return out;
    }
    push_chars(&mut out, b.as_slice());
    if b.len() > 0 && b[b.len() - 1] != '/' {
        crate::text::push_str(&mut out, "/");
    }
    push_chars(&mut out, r.as_slice());
    out
}

/// The `.zg/` directory of an index root.
pub fn hidden_dir(root: &str) -> (r: String)
    ensures
        r@ == joined(root@, ".zg"@),
{
    join_path(root, ".zg")
}

/// The index database of an index root.
pub fn db_path(root: &str) -> (r: String)
    ensures
        r@ == joined(joined(root@, ".zg"@), "index.db"@),
{
    join_path(hidden_dir(root).as_str(), "index.db")
}

/// The state mirror file of an index root.
pub fn state_path(root: &str) -> (r: String)
    ensures
        r@ == joined(joined(root@, ".zg"@), "state.json"@),
{
    join_path(hidden_dir(root).as_str(), "state.json")
}

/// The parent of a path, as `Path::parent` gives it: none for the root or an empty path.
pub open spec fn parent_of(path: Seq<char>) -> Option<Seq<char>> {
    let parts = components(path);
    if parts.len() == 0 || parts.last() == PartView::Root {
        None
    } else {
        Some(parts_text(parts.drop_last()))
    }
}

/// The parent of a path.
pub fn parent(path: &str) -> (r: Option<String>)
    ensures
        crate::text::opt_text(r) == parent_of(path@),
{
    let parts = path_parts(path);
    if parts.len() == 0 || is_root_part(&parts[parts.len() - 1]) {
        return None;
    }
    let text = render_parts(&parts, parts.len() - 1);
    assert(part_views(parts@).take(parts@.len() - 1) =~= components(path@).drop_last());
    Some(text)
}

/// The parents of the path with components `parts`, nearest first.
pub open spec fn parents_chain(parts: Seq<PartView>) -> Seq<Seq<char>>
    decreases parts.len(),
{
    if parts.len() == 0 || parts.last() == PartView::Root {
        Seq::empty()
    } else {
        seq![parts_text(parts.drop_last())] + parents_chain(parts.drop_last())
    }
}

/// The directories an index root for `path` is looked for in, nearest first: the path itself
/// when it is a directory, else its parent, then each further parent.
pub open spec fn root_candidates(path: Seq<char>, path_is_dir: bool) -> Seq<Seq<char>> {
    if path_is_dir {
        seq![path] + parents_chain(components(path))
    } else {
        parents_chain(components(path))
    }
}

/// The directories an index root for `path` is looked for in, nearest first.
pub fn index_root_candidates(path: &str, path_is_dir: bool) -> (r: Vec<String>)
    ensures
        crate::string_views(r@) == root_candidates(path@, path_is_dir),
{
    let parts = path_parts(path);
    let ghost all = components(path@);
    let mut out: Vec<String> = Vec::new();
    if path_is_dir {
        let mut first = String::new();
        crate::text::push_str(&mut first, path);
        out.push(first);
    }
    let ghost prefix = crate::string_views(out@);
    let mut n: usize = parts.len();
    assert(part_views(parts@).take(n as int) =~= all);
    while n > 0 && !is_root_part(&parts[n - 1])
        invariant
            n <= parts@.len(),
            all == part_views(parts@),
            prefix + crate::string_views(out@).skip(prefix.len() as int) + parents_chain(
                all.take(n as int),
            ) == prefix + parents_chain(all),
            crate::string_views(out@).take(prefix.len() as int) == prefix,
            prefix.len() <= out@.len(),
        decreases n,
    {
        let ghost cur = all.take(n as int);
        assert(cur.last() == parts@[n - 1]@);
        let text = render_parts(&parts, n - 1);
        assert(all.take(n - 1) =~= cur.drop_last());
        let ghost before = crate::string_views(out@);
        out.push(text);
        assert(crate::string_views(out@) =~= before.push(text@));
        assert(crate::string_views(out@).skip(prefix.len() as int) =~= before.skip(
            prefix.len() as int,
        ).push(text@));
        assert(crate::string_views(out@).take(prefix.len() as int) =~= before.take(
            prefix.len() as int,
        ));
        assert(parents_chain(cur) =~= seq![text@] + parents_chain(cur.drop_last()));
        n = n - 1;
    }
    proof {
        let cur = all.take(n as int);
        if n > 0 {
            assert(cur.last() == parts@[n - 1]@);
        }
        assert(parents_chain(cur) =~= Seq::<Seq<char>>::empty());
        assert(crate::string_views(out@) =~= crate::string_views(out@).take(prefix.len() as int)
            + crate::string_views(out@).skip(prefix.len() as int));
    }
    out
}

} // verus!

verus! {

/// The index of the first `true` in `flags`, if any.
pub open spec fn first_marked(flags: Seq<bool>) -> Option<int>
    decreases flags.len(),
{
    if flags.len() == 0 {
        None
    } else if flags[0] {
        Some(0)
    } else {
        match first_marked(flags.drop_first()) {
            Some(i) => Some(i + 1),
            None => None,
        }
    }
}

/// The nearest index root among `candidates` (nearest first), given which of them hold an
/// index database.
pub fn find_index_root(candidates: &Vec<String>, indexed: &Vec<bool>) -> (r: Option<String>)
    requires
        candidates@.len() == indexed@.len(),
    ensures
        r is None <==> (forall|i: int| 0 <= i < indexed@.len() ==> !indexed@[i]),
        r matches Some(root) ==> exists|i: int|
            0 <= i < indexed@.len() && indexed@[i] && root@ == candidates@[i]@ && (forall|j: int|
                0 <= j < i ==> !indexed@[j]),
{
    let mut i: usize = 0;
    while i < indexed.len()
        invariant
            i <= indexed@.len(),
            candidates@.len() == indexed@.len(),
            forall|j: int| 0 <= j < i ==> !indexed@[j],
        decreases indexed@.len() - i,
    {
        if indexed[i] {
            let root = candidates[i].clone();
            return Some(root);
        }
        i = i + 1;
    }
    None
}

/// Every index root among `candidates` (nearest first), given which of them hold an index
/// database, in the same order.
pub open spec fn marked(candidates: Seq<Seq<char>>, indexed: Seq<bool>) -> Seq<Seq<char>>
    decreases candidates.len(),
{
    if candidates.len() == 0 {
        Seq::empty()
    } else {
        let rest = marked(candidates.drop_last(), indexed);
        if indexed[candidates.len() - 1] {
            rest.push(candidates.last())
        } else {
            rest
        }
    }
}

/// Every index root that covers a path: the indexed candidates, nearest first.
pub fn covering_index_roots(candidates: &Vec<String>, indexed: &Vec<bool>) -> (r: Vec<String>)
    requires
        candidates@.len() == indexed@.len(),
    ensures
        crate::string_views(r@) == marked(crate::string_views(candidates@), indexed@),
{
    let mut out: Vec<String> = Vec::new();
    let mut i: usize = 0;
    assert(crate::string_views(candidates@).take(0) =~= Seq::<Seq<char>>::empty());
    while i < candidates.len()
        invariant
            i <= candidates@.len(),
            candidates@.len() == indexed@.len(),
            crate::string_views(out@) == marked(crate::string_views(candidates@).take(i as int), indexed@),
        decreases candidates@.len() - i,
    {
        let ghost cs = crate::string_views(candidates@).take(i + 1);
        assert(cs.drop_last() =~= crate::string_views(candidates@).take(i as int));
        if indexed[i] {
            let ghost before = crate::string_views(out@);
            out.push(candidates[i].clone());
            assert(crate::string_views(out@) =~= before.push(candidates@[i as int]@));
        }
        i = i + 1;
    }
    assert(crate::string_views(candidates@).take(candidates@.len() as int) =~= crate::string_views(
        candidates@,
    ));
    out
}

/// The nearest covering root is the first of all covering roots: both pick the nearest
/// indexed candidate.
pub proof fn lemma_nearest_root_is_first_covering(candidates: Seq<Seq<char>>, indexed: Seq<bool>, i: int)
    requires
        candidates.len() <= indexed.len(),
        0 <= i < candidates.len(),
        indexed[i],
        forall|j: int| 0 <= j < i ==> !indexed[j],
    ensures
        marked(candidates, indexed).len() > 0,
        marked(candidates, indexed)[0] == candidates[i],
    decreases candidates.len(),
{
    if candidates.len() - 1 == i {
        assert forall|j: int| 0 <= j < candidates.len() - 1 implies !indexed[j] by {}
        lemma_marked_none(candidates.drop_last(), indexed);
    } else {
        lemma_nearest_root_is_first_covering(candidates.drop_last(), indexed, i);
    }
}

/// Every covering root is an indexed candidate, and covering roots come in candidate order:
/// entry `k` is candidate `at(k)` for positions `at` that increase.
pub proof fn lemma_marked_in_order(candidates: Seq<Seq<char>>, indexed: Seq<bool>) -> (at: Seq<int>)
    requires
        candidates.len() <= indexed.len(),
    ensures
        at.len() == marked(candidates, indexed).len(),
        forall|k: int| 0 <= k < at.len() ==> 0 <= #[trigger] at[k] < candidates.len() && indexed[at[k]]
            && marked(candidates, indexed)[k] == candidates[at[k]],
        forall|k: int, l: int| 0 <= k < l < at.len() ==> #[trigger] at[k] < #[trigger] at[l],
    decreases candidates.len(),
{
    if candidates.len() == 0 {
        Seq::empty()
    } else {
        let n = candidates.len() - 1;
        let prev = lemma_marked_in_order(candidates.drop_last(), indexed);
        if indexed[n] {
            let at = prev.push(n);
            assert forall|k: int| 0 <= k < at.len() implies 0 <= #[trigger] at[k] < candidates.len() && indexed[at[k]]
                && marked(candidates, indexed)[k] == candidates[at[k]] by {
                if k < prev.len() {
                    assert(at[k] == prev[k]);
                    assert(candidates.drop_last()[prev[k]] == candidates[prev[k]]);
                }
            }
            assert forall|k: int, l: int| 0 <= k < l < at.len() implies #[trigger] at[k] < #[trigger] at[l] by {
                if l < prev.len() {
                    assert(at[k] == prev[k] && at[l] == prev[l]);
                } else {
                    assert(at[k] == prev[k]);
                }
            }
            at
        } else {
            assert forall|k: int| 0 <= k < prev.len() implies 0 <= #[trigger] prev[k] < candidates.len() && indexed[prev[k]]
                && marked(candidates, indexed)[k] == candidates[prev[k]] by {
                assert(candidates.drop_last()[prev[k]] == candidates[prev[k]]);
            }
            prev
        }
    }
}

/// Covering roots never repeat when the candidates (an ancestor chain) do not.
pub proof fn lemma_marked_distinct(candidates: Seq<Seq<char>>, indexed: Seq<bool>)
    requires
        candidates.len() <= indexed.len(),
        forall|i: int, j: int| 0 <= i < j < candidates.len() ==> candidates[i] != candidates[j],
    ensures
        forall|k: int, l: int|
            0 <= k < l < marked(candidates, indexed).len() ==> marked(candidates, indexed)[k] != marked(
                candidates,
                indexed,
            )[l],
{
    let at = lemma_marked_in_order(candidates, indexed);
    assert forall|k: int, l: int| 0 <= k < l < marked(candidates, indexed).len() implies marked(candidates, indexed)[k]
        != marked(candidates, indexed)[l] by {
        assert(at[k] < at[l]);
        assert(0 <= at[k] < candidates.len() && 0 <= at[l] < candidates.len());
    }
}

proof fn lemma_marked_none(candidates: Seq<Seq<char>>, indexed: Seq<bool>)
    requires
        candidates.len() <= indexed.len(),
        forall|j: int| 0 <= j < candidates.len() ==> !indexed[j],
    ensures
        marked(candidates, indexed).len() == 0,
    decreases candidates.len(),
{
    if candidates.len() > 0 {
        lemma_marked_none(candidates.drop_last(), indexed);
    }
}

/// Whether `prefix` is an initial run of `parts`.
pub open spec fn parts_prefix(prefix: Seq<PartView>, parts: Seq<PartView>) -> bool {
    prefix.len() <= parts.len() && parts.take(prefix.len() as int) == prefix
}

/// `path` relative to `root`, as `Path::strip_prefix` gives it, when `root`'s components start
/// `path`'s.
pub open spec fn relative_to(root: Seq<char>, path: Seq<char>) -> Option<Seq<char>> {
    let rc = components(root);
    let pc = components(path);
    if parts_prefix(rc, pc) {
        Some(parts_text(pc.skip(rc.len() as int)))
    } else {
        None
    }
}

fn copy_part(p: &PathPart) -> (r: PathPart)
    ensures
        r@ == p@,
{
    match p {
        PathPart::Root => PathPart::Root,
        PathPart::Cur => PathPart::Cur,
        PathPart::Parent => PathPart::Parent,
        PathPart::Normal(name) => PathPart::Normal(name.clone()),
    }
}

/// Whether two components are the same.
pub fn same_part_exec(a: &PathPart, b: &PathPart) -> (r: bool)
    ensures
        r == (a@ == b@),
{
    same_part(a, b)
}

fn same_part(a: &PathPart, b: &PathPart) -> (r: bool)
    ensures
        r == (a@ == b@),
{
    match (a, b) {
        (PathPart::Root, PathPart::Root) => true,
        (PathPart::Cur, PathPart::Cur) => true,
        (PathPart::Parent, PathPart::Parent) => true,
        (PathPart::Normal(x), PathPart::Normal(y)) => {
            let sx = string_of(x.as_slice());
            let sy = string_of(y.as_slice());
            crate::text::same_text(sx.as_str(), sy.as_str())
        },
        _ => false,
    }
}

/// `path` relative to `root`, when `root` is a component-wise prefix of it.
pub fn relative_path(root: &str, path: &str) -> (r: Option<String>)
    ensures
        crate::text::opt_text(r) == relative_to(root@, path@),
{
    let rc = path_parts(root);
    let pc = path_parts(path);
    if rc.len() > pc.len() {
        return None;
    }
    let mut i: usize = 0;
    while i < rc.len()
        invariant
            i <= rc@.len() <= pc@.len(),
            part_views(rc@) == components(root@),
            part_views(pc@) == components(path@),
            forall|k: int| 0 <= k < i ==> rc@[k]@ == pc@[k]@,
        decreases rc@.len() - i,
    {
        if !same_part(&rc[i], &pc[i]) {
            assert(part_views(pc@).take(rc@.len() as int)[i as int] != part_views(rc@)[i as int]);
            return None;
        }
        i = i + 1;
    }
    assert(part_views(pc@).take(rc@.len() as int) =~= part_views(rc@));
    let mut rest: Vec<PathPart> = Vec::new();
    let mut j: usize = rc.len();
    while j < pc.len()
        invariant
            rc@.len() <= j <= pc@.len(),
            part_views(rest@) == part_views(pc@).subrange(rc@.len() as int, j as int),
        decreases pc@.len() - j,
    {
        let ghost before = part_views(rest@);
        let part = copy_part(&pc[j]);
        assert(part@ == part_views(pc@)[j as int]);
        rest.push(part);
        assert(part_views(rest@) =~= before.push(part@));
        assert(part_views(rest@) =~= part_views(pc@).subrange(rc@.len() as int, j + 1));
        j = j + 1;
    }
    let text = render_parts(&rest, rest.len());
    assert(part_views(rest@).take(rest@.len() as int) =~= part_views(pc@).skip(rc@.len() as int));
    Some(text)
}

/// Whether some component of `path` is `.zg`.
pub open spec fn has_zg_part(path: Seq<char>) -> bool {
    exists|i: int| 0 <= i < components(path).len() && components(path)[i] == PartView::Normal(".zg"@)
}

/// Whether some component of `path` is the `.zg` cache directory.
pub fn has_zg_component(path: &str) -> (r: bool)
    ensures
        r == has_zg_part(path@),
{
    let parts = path_parts(path);
    let zg = chars_of(".zg");
    let mut i: usize = 0;
    while i < parts.len()
        invariant
            i <= parts@.len(),
            part_views(parts@) == components(path@),
            zg@ == ".zg"@,
            forall|k: int| 0 <= k < i ==> parts@[k]@ != PartView::Normal(".zg"@),
        decreases parts@.len() - i,
    {
        if let PathPart::Normal(name) = &parts[i] {
            let a = string_of(name.as_slice());
            let b = string_of(zg.as_slice());
            if crate::text::same_text(a.as_str(), b.as_str()) {
                assert(part_views(parts@)[i as int] == PartView::Normal(".zg"@));
                return true;
            }
        }
        i = i + 1;
    }
    assert forall|k: int| 0 <= k < components(path@).len() implies components(path@)[k]
        != PartView::Normal(".zg"@) by {
        assert(part_views(parts@)[k] == parts@[k]@);
    }
    false
}

} // verus!

verus! {

/// The rank of a component kind in `std::path::Component`'s order.
pub open spec fn part_rank(p: PartView) -> int {
    match p {
        PartView::Root => 1,
        PartView::Cur => 2,
        PartView::Parent => 3,
        PartView::Normal(_) => 4,
    }
}

/// The order of components: by kind, then names by their text.
pub open spec fn part_less(a: PartView, b: PartView) -> bool {
    part_rank(a) < part_rank(b) || (match (a, b) {
        (PartView::Normal(x), PartView::Normal(y)) => crate::text::chars_less(x, y),
        _ => false,
    })
}

/// The order of paths: component sequences compared lexicographically (the order of
/// `PathBuf`).
pub open spec fn parts_less(a: Seq<PartView>, b: Seq<PartView>) -> bool
    decreases a.len(),
{
    if a.len() == 0 {
        b.len() > 0
    } else if b.len() == 0 {
        false
    } else if part_less(a[0], b[0]) {
        true
    } else if a[0] == b[0] {
        parts_less(a.drop_first(), b.drop_first())
    } else {
        false
    }
}

/// The component order is transitive and irreflexive.
pub proof fn lemma_part_less(a: PartView, b: PartView, c: PartView)
    ensures
        part_less(a, b) && part_less(b, c) ==> part_less(a, c),
        !part_less(a, a),
{
    if let PartView::Normal(x) = a {
        crate::text::lemma_chars_less_irreflexive(x);
        if let PartView::Normal(y) = b {
            if let PartView::Normal(z) = c {
                if crate::text::chars_less(x, y) && crate::text::chars_less(y, z) {
                    crate::text::lemma_chars_less_transitive(x, y, z);
                }
            }
        }
    }
}

/// The path order is transitive.
pub proof fn lemma_parts_less_transitive(a: Seq<PartView>, b: Seq<PartView>, c: Seq<PartView>)
    requires
        parts_less(a, b),
        parts_less(b, c),
    ensures
        parts_less(a, c),
    decreases a.len(),
{
    if a.len() > 0 && b.len() > 0 && c.len() > 0 {
        lemma_part_less(a[0], b[0], c[0]);
        lemma_part_less(b[0], b[0], b[0]);
        if a[0] == b[0] && b[0] == c[0] {
            lemma_parts_less_transitive(a.drop_first(), b.drop_first(), c.drop_first());
        }
    }
}

/// The path order is irreflexive.
pub proof fn lemma_parts_less_irreflexive(a: Seq<PartView>)
    ensures
        !parts_less(a, a),
    decreases a.len(),
{
    if a.len() > 0 {
        lemma_part_less(a[0], a[0], a[0]);
        lemma_parts_less_irreflexive(a.drop_first());
    }
}

fn rank_of(p: &PathPart) -> (r: u8)
    ensures
        r == part_rank(p@),
{
    match p {
        PathPart::Root => 1,
        PathPart::Cur => 2,
        PathPart::Parent => 3,
        PathPart::Normal(_) => 4,
    }
}

fn part_before(a: &PathPart, b: &PathPart) -> (r: bool)
    ensures
        r == part_less(a@, b@),
{
    if rank_of(a) < rank_of(b) {
        return true;
    }
    match (a, b) {
        (PathPart::Normal(x), PathPart::Normal(y)) => crate::text::chars_before(x.as_slice(), y.as_slice()),
        _ => false,
    }
}

/// Whether the path with components `a` orders before the one with components `b`.
pub fn parts_before(a: &Vec<PathPart>, b: &Vec<PathPart>) -> (r: bool)
    ensures
        r == parts_less(part_views(a@), part_views(b@)),
{
    let ghost va = part_views(a@);
    let ghost vb = part_views(b@);
    let mut i: usize = 0;
    assert(va.skip(0) =~= va);
    assert(vb.skip(0) =~= vb);
    while i < a.len() && i < b.len()
        invariant
            i <= a@.len(),
            i <= b@.len(),
            va == part_views(a@),
            vb == part_views(b@),
            parts_less(va, vb) == parts_less(va.skip(i as int), vb.skip(i as int)),
        decreases a@.len() - i,
    {
        proof {
            let sa = va.skip(i as int);
            let sb = vb.skip(i as int);
            assert(sa[0] == a@[i as int]@);
            assert(sb[0] == b@[i as int]@);
            assert(sa.drop_first() =~= va.skip(i + 1));
            assert(sb.drop_first() =~= vb.skip(i + 1));
        }
        if part_before(&a[i], &b[i]) {
            return true;
        }
        if !same_part(&a[i], &b[i]) {
            return false;
        }
        i = i + 1;
    }
    i < b.len()
}

/// The final component of a path when it is a name, as `Path::file_name` gives it.
pub open spec fn file_name_of(path: Seq<char>) -> Option<Seq<char>> {
    let parts = components(path);
    if parts.len() > 0 {
        match parts.last() {
            PartView::Normal(name) => Some(name),
            _ => None,
        }
    } else {
        None
    }
}

/// The final component of a path when it is a name.
pub fn file_name(path: &str) -> (r: Option<Vec<char>>)
    ensures
        r matches Some(name) ==> file_name_of(path@) == Some(name@),
        r is None ==> file_name_of(path@) is None,
{
    let parts = path_parts(path);
    if parts.len() == 0 {
        return None;
    }
    match &parts[parts.len() - 1] {
        PathPart::Normal(name) => Some(name.clone()),
        _ => None,
    }
}

/// The error for a path argument that does not exist.
pub fn path_missing(path: &str) -> (r: crate::ZgError)
    ensures
        r.message@ == "path does not exist: "@ + path@,
{
    let mut s = String::new();
    crate::text::push_str(&mut s, "path does not exist: ");
    crate::text::push_str(&mut s, path);
    crate::other(s)
}

/// The error for a directory argument that names something else.
pub fn not_a_directory(path: &str) -> (r: crate::ZgError)
    ensures
        r.message@ == "path is not a directory: "@ + path@,
{
    let mut s = String::new();
    crate::text::push_str(&mut s, "path is not a directory: ");
    crate::text::push_str(&mut s, path);
    crate::other(s)
}

/// The error for a directory that holds no index database.
pub fn not_indexed_root(root: &str) -> (r: crate::ZgError)
    ensures
        r.message@ == root@ + " is not an indexed zg root"@,
{
    let mut s = String::new();
    crate::text::push_str(&mut s, root);
    crate::text::push_str(&mut s, " is not an indexed zg root");
    crate::other(s)
}

/// The error for a `.zg` entry that is not a directory.
pub fn cache_not_a_directory(hidden: &str) -> (r: crate::ZgError)
    ensures
        r.message@ == "expected cache directory at "@ + hidden@,
{
    let mut s = String::new();
    crate::text::push_str(&mut s, "expected cache directory at ");
    crate::text::push_str(&mut s, hidden);
    crate::other(s)
}

} // verus!
