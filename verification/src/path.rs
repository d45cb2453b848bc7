//! Unix path semantics on character sequences: splitting a path into its
//! components, comparing paths component-wise, and the few derived
//! operations the planner needs (`file_name`, `parent`, `starts_with`,
//! `join`).
//!
//! A path is read the way `std::path::Path` reads it on Unix: a leading `/`
//! is the root, a leading `.` segment is kept as the current directory, any
//! other empty or `.` segment is skipped, `..` is the parent directory, and
//! every other segment is a normal name.
use vstd::prelude::*;

use crate::text::{
    chars_eq, chars_lt, lemma_seq_lt_irreflexive, lemma_seq_lt_transitive, lemma_seq_lt_trichotomy,
    seq_lt,
};

verus! {

/// One component of a path, as a mathematical value.
pub enum PathComponent {
    RootDir,
    CurDir,
    ParentDir,
    Normal(Seq<char>),
}

/// One component of a path.
pub enum Component {
    RootDir,
    CurDir,
    ParentDir,
    Normal(Vec<char>),
}

impl View for Component {
    type V = PathComponent;

    open spec fn view(&self) -> PathComponent {
        match self {
            Component::RootDir => PathComponent::RootDir,
            Component::CurDir => PathComponent::CurDir,
            Component::ParentDir => PathComponent::ParentDir,
            Component::Normal(n) => PathComponent::Normal(n@),
        }
    }
}

/// The views of a vector of components.
pub open spec fn comps_view(v: Seq<Component>) -> Seq<PathComponent> {
    v.map_values(|c: Component| c@)
}

/// The path starts at the root.
pub open spec fn has_root(p: Seq<char>) -> bool {
    p.len() > 0 && p[0] == '/'
}

/// The path starts with a `.` segment, which is kept as the current directory.
pub open spec fn has_cur_dir(p: Seq<char>) -> bool {
    !has_root(p) && p.len() > 0 && p[0] == '.' && (p.len() == 1 || p[1] == '/')
}

/// Where the body (the part after a root or a leading `.`) starts.
pub open spec fn body_start(p: Seq<char>) -> int {
    if has_root(p) || has_cur_dir(p) {
        1
    } else {
        0
    }
}

/// Length of the first segment of `t`, that is up to its first `/`.
pub open spec fn seg_len(t: Seq<char>) -> nat
    decreases t.len(),
{
    if t.len() == 0 || t[0] == '/' {
        0
    } else {
        1 + seg_len(t.drop_first())
    }
}

/// The component a body segment stands for, if any.
pub open spec fn segment_component(seg: Seq<char>) -> Seq<PathComponent> {
    if seg.len() == 0 || seg == seq!['.'] {
        seq![]
    } else if seg == seq!['.', '.'] {
        seq![PathComponent::ParentDir]
    } else {
        seq![PathComponent::Normal(seg)]
    }
}

/// The components of a body: its `/`-separated segments, read one by one.
pub open spec fn body_components(t: Seq<char>) -> Seq<PathComponent>
    decreases t.len(),
{
    if t.len() == 0 {
        seq![]
    } else {
        let k = seg_len(t);
        if k < t.len() {
            segment_component(t.take(k as int)) + body_components(t.skip(k as int + 1))
        } else {
            segment_component(t)
        }
    }
}

/// The components of a path.
pub open spec fn components(p: Seq<char>) -> Seq<PathComponent> {
    let head = if has_root(p) {
        seq![PathComponent::RootDir]
    } else if has_cur_dir(p) {
        seq![PathComponent::CurDir]
    } else {
        seq![]
    };
    head + body_components(p.skip(body_start(p)))
}

proof fn lemma_seg_len(t: Seq<char>, k: int)
    requires
        0 <= k <= t.len(),
        forall|j: int| 0 <= j < k ==> t[j] != '/',
        k == t.len() || t[k] == '/',
    ensures
        seg_len(t) == k,
    decreases t.len(),
{
    if t.len() > 0 && t[0] != '/' {
        lemma_seg_len(t.drop_first(), k - 1);
    }
}

/// The component standing for a finished body segment.
fn classify_segment(seg: Vec<char>, out: &mut Vec<Component>)
    ensures
        comps_view(final(out)@) == comps_view(old(out)@) + segment_component(seg@),
{
    let n = seg.len();
    if n == 0 || (n == 1 && seg[0] == '.') {
        assert(segment_component(seg@) =~= seq![]) by {
            if n == 1 {
                assert(seg@ =~= seq!['.']);
            }
        }
        assert(comps_view(out@) =~= comps_view(out@) + seq![]);
    } else if n == 2 && seg[0] == '.' && seg[1] == '.' {
        assert(seg@ =~= seq!['.', '.']);
        out.push(Component::ParentDir);
        assert(comps_view(out@) =~= comps_view(old(out)@) + seq![PathComponent::ParentDir]);
    } else {
        assert(seg@ != seq!['.']) by {
            if n == 1 {
                assert(seg@[0] == seq!['.'][0] ==> seg@ == seq!['.']);
            }
        }
        assert(seg@ != seq!['.', '.']) by {
            if seg@ == seq!['.', '.'] {
                assert(seg@[0] == '.' && seg@[1] == '.');
            }
        }
        let ghost sv = seg@;
        out.push(Component::Normal(seg));
        assert(comps_view(out@) =~= comps_view(old(out)@) + seq![PathComponent::Normal(sv)]);
    }
}

/// Splits a path into its components.
pub fn components_of(p: &Vec<char>) -> (res: Vec<Component>)
    ensures
        comps_view(res@) == components(p@),
{
    let mut out: Vec<Component> = Vec::new();
    let mut start: usize = 0;
    if p.len() > 0 && p[0] == '/' {
        out.push(Component::RootDir);
        start = 1;
    } else if p.len() > 0 && p[0] == '.' && (p.len() == 1 || p[1] == '/') {
        out.push(Component::CurDir);
        start = 1;
    }
    assert(start == body_start(p@));
    let ghost head = comps_view(out@);
    assert(components(p@) == head + body_components(p@.skip(start as int)));
    let mut seg: Vec<char> = Vec::new();
    let mut seg_start: usize = start;
    let mut i: usize = start;
    while i < p.len()
        invariant
            start <= seg_start <= i <= p.len(),
            seg@ == p@.subrange(seg_start as int, i as int),
            forall|j: int| seg_start <= j < i ==> p@[j] != '/',
            comps_view(out@) + body_components(p@.skip(seg_start as int)) == components(p@),
        decreases p.len() - i,
    {
        if p[i] == '/' {
            let ghost t = p@.skip(seg_start as int);
            proof {
                lemma_seg_len(t, (i - seg_start) as int);
                assert(t.take((i - seg_start) as int) =~= seg@);
                assert(t.skip((i - seg_start) + 1) =~= p@.skip(i + 1));
                assert(body_components(t) == segment_component(seg@) + body_components(
                    p@.skip(i + 1),
                ));
            }
            let finished = seg;
            classify_segment(finished, &mut out);
            assert(comps_view(out@) + body_components(p@.skip(i + 1)) =~= components(p@));
            seg = Vec::new();
            seg_start = i + 1;
            assert(seg@ =~= p@.subrange(seg_start as int, seg_start as int));
        } else {
            seg.push(p[i]);
            assert(seg@ =~= p@.subrange(seg_start as int, i + 1));
        }
        i = i + 1;
    }
    let ghost t = p@.skip(seg_start as int);
    assert(t =~= seg@);
    if seg.len() > 0 {
        proof {
            lemma_seg_len(t, t.len() as int);
        }
    }
    classify_segment(seg, &mut out);
    assert(comps_view(out@) =~= components(p@));
    out
}


// ---------------------------------------------------------------------------
// Ordering and equality of paths, which `std::path::Path` defines on their
// components: the kinds are ordered root, current, parent, normal, and normal
// names by their characters.

/// Rank of a component kind in the order of components.
pub open spec fn comp_rank(c: PathComponent) -> int {
    match c {
        PathComponent::RootDir => 0,
        PathComponent::CurDir => 1,
        PathComponent::ParentDir => 2,
        PathComponent::Normal(_) => 3,
    }
}

/// Strict order on components.
pub open spec fn comp_lt(a: PathComponent, b: PathComponent) -> bool {
    match (a, b) {
        (PathComponent::Normal(x), PathComponent::Normal(y)) => seq_lt(x, y),
        _ => comp_rank(a) < comp_rank(b),
    }
}

/// Strict lexicographic order on component sequences.
pub open spec fn comps_lt(a: Seq<PathComponent>, b: Seq<PathComponent>) -> bool
    decreases a.len(),
{
    if a.len() == 0 {
        b.len() > 0
    } else if b.len() == 0 {
        false
    } else if a[0] == b[0] {
        comps_lt(a.drop_first(), b.drop_first())
    } else {
        comp_lt(a[0], b[0])
    }
}

/// Strict order on paths, by their components.
pub open spec fn path_lt(a: Seq<char>, b: Seq<char>) -> bool {
    comps_lt(components(a), components(b))
}

/// Two paths are equal as `std::path::Path` values: same components.
pub open spec fn path_eq(a: Seq<char>, b: Seq<char>) -> bool {
    components(a) == components(b)
}

proof fn lemma_comp_lt_trichotomy(a: PathComponent, b: PathComponent)
    ensures
        a == b || comp_lt(a, b) || comp_lt(b, a),
        !(comp_lt(a, b) && comp_lt(b, a)),
        !comp_lt(a, a),
{
    match (a, b) {
        (PathComponent::Normal(x), PathComponent::Normal(y)) => {
            lemma_seq_lt_trichotomy(x, y);
            lemma_seq_lt_irreflexive(x);
        },
        _ => {
            match a {
                PathComponent::Normal(x) => lemma_seq_lt_irreflexive(x),
                _ => {},
            }
        },
    }
}

proof fn lemma_comp_lt_transitive(a: PathComponent, b: PathComponent, c: PathComponent)
    requires
        comp_lt(a, b),
        comp_lt(b, c),
    ensures
        comp_lt(a, c),
{
    match (a, b, c) {
        (PathComponent::Normal(x), PathComponent::Normal(y), PathComponent::Normal(z)) => {
            lemma_seq_lt_transitive(x, y, z);
        },
        _ => {},
    }
}

/// `comps_lt` is a strict total order.
pub proof fn lemma_comps_lt_trichotomy(a: Seq<PathComponent>, b: Seq<PathComponent>)
    ensures
        a == b || comps_lt(a, b) || comps_lt(b, a),
        !(comps_lt(a, b) && comps_lt(b, a)),
        !comps_lt(a, a),
    decreases a.len(),
{
    if a.len() == 0 || b.len() == 0 {
        if a.len() == 0 && b.len() == 0 {
            assert(a =~= b);
        }
    } else if a[0] == b[0] {
        lemma_comps_lt_trichotomy(a.drop_first(), b.drop_first());
        if a.drop_first() == b.drop_first() {
            assert(a =~= seq![a[0]] + a.drop_first());
            assert(b =~= seq![b[0]] + b.drop_first());
        }
    } else {
        lemma_comp_lt_trichotomy(a[0], b[0]);
    }
    if a.len() > 0 {
        lemma_comps_lt_trichotomy(a.drop_first(), a.drop_first());
    }
}

/// `comps_lt` is transitive.
pub proof fn lemma_comps_lt_transitive(
    a: Seq<PathComponent>,
    b: Seq<PathComponent>,
    c: Seq<PathComponent>,
)
    requires
        comps_lt(a, b),
        comps_lt(b, c),
    ensures
        comps_lt(a, c),
    decreases a.len(),
{
    if a.len() > 0 && b.len() > 0 && c.len() > 0 {
        if a[0] == b[0] && b[0] == c[0] {
            lemma_comps_lt_transitive(a.drop_first(), b.drop_first(), c.drop_first());
        } else if a[0] != b[0] && b[0] != c[0] {
            lemma_comp_lt_transitive(a[0], b[0], c[0]);
            lemma_comp_lt_trichotomy(a[0], c[0]);
        } else if a[0] != b[0] {
            lemma_comp_lt_trichotomy(a[0], c[0]);
        } else {
            lemma_comp_lt_trichotomy(a[0], c[0]);
        }
    }
}

/// Whether two components are equal.
fn component_eq(a: &Component, b: &Component) -> (res: bool)
    ensures
        res == (a@ == b@),
{
    match (a, b) {
        (Component::RootDir, Component::RootDir) => true,
        (Component::CurDir, Component::CurDir) => true,
        (Component::ParentDir, Component::ParentDir) => true,
        (Component::Normal(x), Component::Normal(y)) => chars_eq(x, y),
        _ => false,
    }
}

/// Whether component `a` comes strictly before component `b`.
fn component_lt(a: &Component, b: &Component) -> (res: bool)
    ensures
        res == comp_lt(a@, b@),
{
    match (a, b) {
        (Component::Normal(x), Component::Normal(y)) => chars_lt(x, y),
        _ => {
            let ra: u8 = match a {
                Component::RootDir => 0,
                Component::CurDir => 1,
                Component::ParentDir => 2,
                Component::Normal(_) => 3,
            };
            let rb: u8 = match b {
                Component::RootDir => 0,
                Component::CurDir => 1,
                Component::ParentDir => 2,
                Component::Normal(_) => 3,
            };
            ra < rb
        },
    }
}

/// Whether the component sequence `a` comes strictly before `b`.
pub fn components_lt(a: &Vec<Component>, b: &Vec<Component>) -> (res: bool)
    ensures
        res == comps_lt(comps_view(a@), comps_view(b@)),
{
    let ghost av = comps_view(a@);
    let ghost bv = comps_view(b@);
    let mut i: usize = 0;
    assert(av.skip(0) =~= av);
    assert(bv.skip(0) =~= bv);
    while i < a.len() && i < b.len()
        invariant
            i <= a.len(),
            i <= b.len(),
            av == comps_view(a@),
            bv == comps_view(b@),
            comps_lt(av, bv) == comps_lt(av.skip(i as int), bv.skip(i as int)),
        decreases a.len() - i,
    {
        assert(av.skip(i as int)[0] == a@[i as int]@);
        assert(bv.skip(i as int)[0] == b@[i as int]@);
        if !component_eq(&a[i], &b[i]) {
            return component_lt(&a[i], &b[i]);
        }
        assert(av.skip(i as int).drop_first() =~= av.skip(i + 1));
        assert(bv.skip(i as int).drop_first() =~= bv.skip(i + 1));
        i = i + 1;
    }
    i < b.len()
}

/// Whether the component sequence `base` is a prefix of `p`.
pub fn components_prefix(base: &Vec<Component>, p: &Vec<Component>) -> (res: bool)
    ensures
        res == (comps_view(base@).len() <= comps_view(p@).len() && comps_view(p@).take(
            comps_view(base@).len() as int,
        ) == comps_view(base@)),
{
    if base.len() > p.len() {
        return false;
    }
    let mut i: usize = 0;
    while i < base.len()
        invariant
            i <= base.len() <= p.len(),
            forall|j: int| 0 <= j < i ==> base@[j]@ == p@[j]@,
        decreases base.len() - i,
    {
        if !component_eq(&base[i], &p[i]) {
            assert(comps_view(p@).take(base.len() as int)[i as int] != comps_view(base@)[i as int]);
            return false;
        }
        i = i + 1;
    }
    assert(comps_view(p@).take(base.len() as int) =~= comps_view(base@));
    true
}

/// Whether two component sequences are equal.
pub fn components_eq(a: &Vec<Component>, b: &Vec<Component>) -> (res: bool)
    ensures
        res == (comps_view(a@) == comps_view(b@)),
{
    if a.len() != b.len() {
        assert(comps_view(a@).len() != comps_view(b@).len());
        return false;
    }
    let r = components_prefix(a, b);
    assert(comps_view(b@).take(comps_view(a@).len() as int) =~= comps_view(b@));
    r
}

// ---------------------------------------------------------------------------
// Safety, file name, prefix.

/// A plain relative path: not empty, and made of normal names only, so that
/// it can neither start at the root nor climb out with `..` nor begin with `.`.
pub open spec fn is_safe_relative_spec(p: Seq<char>) -> bool {
    &&& p.len() > 0
    &&& forall|i: int| 0 <= i < components(p).len() ==> (#[trigger] components(p)[i]) is Normal
}

/// Rejects anything that is not a plain relative path staying inside the root.
///
/// Absolute paths, `..`, and even a leading `./` are refused, so a hostile or
/// careless config cannot write outside the project.
pub fn is_safe_relative(path: &str) -> (res: bool)
    ensures
        res == is_safe_relative_spec(path@),
{
    let p = crate::text::chars_of(path);
    safe_relative_chars(&p)
}

/// `is_safe_relative` on characters.
pub fn safe_relative_chars(p: &Vec<char>) -> (res: bool)
    ensures
        res == is_safe_relative_spec(p@),
{
    if p.len() == 0 {
        return false;
    }
    let comps = components_of(p);
    let mut i: usize = 0;
    while i < comps.len()
        invariant
            i <= comps.len(),
            comps_view(comps@) == components(p@),
            forall|j: int| 0 <= j < i ==> (#[trigger] components(p@)[j]) is Normal,
        decreases comps.len() - i,
    {
        match &comps[i] {
            Component::Normal(_) => {},
            _ => {
                assert(!(components(p@)[i as int] is Normal));
                return false;
            },
        }
        i = i + 1;
    }
    true
}

/// The final component of a path when it is a normal name.
pub open spec fn file_name_spec(p: Seq<char>) -> Option<Seq<char>> {
    let c = components(p);
    if c.len() > 0 && c.last() is Normal {
        Some(c.last()->Normal_0)
    } else {
        None
    }
}

/// The final component of a path, when it is a normal name (`Path::file_name`).
pub fn file_name(p: &Vec<char>) -> (res: Option<Vec<char>>)
    ensures
        match res {
            Some(n) => file_name_spec(p@) == Some(n@),
            None => file_name_spec(p@) is None,
        },
{
    let mut comps = components_of(p);
    let ghost cv = comps_view(comps@);
    match comps.pop() {
        Some(Component::Normal(n)) => {
            assert(cv.last() == PathComponent::Normal(n@));
            Some(n)
        },
        _ => None,
    }
}

/// `p` starts with `base`, component by component (`Path::starts_with`).
pub open spec fn starts_with_spec(p: Seq<char>, base: Seq<char>) -> bool {
    let cb = components(base);
    let cp = components(p);
    cb.len() <= cp.len() && cp.take(cb.len() as int) == cb
}

// ---------------------------------------------------------------------------
// Parent (`Path::parent`): the path with its last component and the
// separators and `.` segments around it taken off the end, never cutting into
// a leading root or `.`.

/// Where the piece of `p` that ends at `e` starts: just after the last `/`
/// before `e`, and never before `b`.
pub open spec fn piece_start(p: Seq<char>, b: int, e: int) -> int
    decreases e - b,
{
    if e <= b {
        e
    } else if p[e - 1] == '/' {
        e
    } else {
        piece_start(p, b, e - 1)
    }
}

/// The end of `p.take(e)` once trailing empty and `.` segments (with their
/// separators) are taken off, never going below `b`.
pub open spec fn strip_trailing(p: Seq<char>, b: int, e: int) -> int
    decreases e - b,
{
    if e <= b {
        e
    } else if p[e - 1] == '/' {
        strip_trailing(p, b, e - 1)
    } else if p[e - 1] == '.' && (e - 1 == b || p[e - 2] == '/') {
        strip_trailing(p, b, if e - 1 > b { e - 2 } else { e - 1 })
    } else {
        e
    }
}

/// Length of the parent of `p`, if `p` has one.
pub open spec fn parent_len(p: Seq<char>) -> Option<int> {
    let b = body_start(p);
    let e = strip_trailing(p, b, p.len() as int);
    if e > b {
        let s = piece_start(p, b, e);
        Some(strip_trailing(p, b, if s > b { s - 1 } else { s }))
    } else if has_cur_dir(p) {
        Some(0)
    } else {
        None
    }
}

/// The parent of `p`: `None` for the root and for a path without components.
pub open spec fn parent_spec(p: Seq<char>) -> Option<Seq<char>> {
    match parent_len(p) {
        Some(e) => Some(p.take(e)),
        None => None,
    }
}

proof fn lemma_strip_trailing_bounds(p: Seq<char>, b: int, e: int)
    requires
        0 <= b <= e <= p.len(),
    ensures
        b <= strip_trailing(p, b, e) <= e,
    decreases e - b,
{
    if e > b {
        if p[e - 1] == '/' {
            lemma_strip_trailing_bounds(p, b, e - 1);
        } else if p[e - 1] == '.' && (e - 1 == b || p[e - 2] == '/') {
            lemma_strip_trailing_bounds(p, b, if e - 1 > b { e - 2 } else { e - 1 });
        }
    }
}

fn strip_trailing_exec(p: &Vec<char>, b: usize, e0: usize) -> (e: usize)
    requires
        b <= e0 <= p.len(),
    ensures
        e == strip_trailing(p@, b as int, e0 as int),
        b <= e <= e0,
{
    let mut e = e0;
    while e > b
        invariant
            b <= e <= e0 <= p.len(),
            strip_trailing(p@, b as int, e as int) == strip_trailing(p@, b as int, e0 as int),
        decreases e,
    {
        if p[e - 1] == '/' {
            e = e - 1;
        } else if p[e - 1] == '.' && (e - 1 == b || p[e - 2] == '/') {
            if e - 1 > b {
                e = e - 2;
            } else {
                e = e - 1;
            }
        } else {
            return e;
        }
    }
    e
}

/// The parent of a path (`Path::parent`).
pub fn parent(p: &Vec<char>) -> (res: Option<Vec<char>>)
    ensures
        match res {
            Some(q) => parent_spec(p@) == Some(q@),
            None => parent_spec(p@) is None,
        },
{
    let b: usize = if p.len() > 0 && p[0] == '/' {
        1
    } else if p.len() > 0 && p[0] == '.' && (p.len() == 1 || p[1] == '/') {
        1
    } else {
        0
    };
    assert(b == body_start(p@));
    let e = strip_trailing_exec(p, b, p.len());
    proof {
        lemma_strip_trailing_bounds(p@, b as int, p.len() as int);
    }
    let len: usize;
    if e > b {
        let mut s = e;
        while s > b && p[s - 1] != '/'
            invariant
                b <= s <= e <= p.len(),
                piece_start(p@, b as int, s as int) == piece_start(p@, b as int, e as int),
            decreases s,
        {
            s = s - 1;
        }
        let cut = if s > b {
            s - 1
        } else {
            s
        };
        len = strip_trailing_exec(p, b, cut);
    } else if p.len() > 0 && p[0] == '.' && (p.len() == 1 || p[1] == '/') {
        len = 0;
    } else {
        return None;
    }
    let mut q: Vec<char> = Vec::new();
    let mut i: usize = 0;
    while i < len
        invariant
            i <= len <= p.len(),
            q@ == p@.take(i as int),
        decreases len - i,
    {
        q.push(p[i]);
        assert(q@ =~= p@.take(i + 1));
        i = i + 1;
    }
    Some(q)
}

// ---------------------------------------------------------------------------
// Joining.

/// `base` joined with `rel` (`Path::join` on Unix): a rooted `rel` replaces
/// `base`; otherwise a `/` is put between them unless `base` is empty or
/// already ends with one.
pub open spec fn join_spec(base: Seq<char>, rel: Seq<char>) -> Seq<char> {
    if has_root(rel) {
        rel
    } else if base.len() == 0 || base.last() == '/' {
        base + rel
    } else {
        base + seq!['/'] + rel
    }
}

/// Joins two paths.
pub fn join(base: &Vec<char>, rel: &Vec<char>) -> (res: Vec<char>)
    ensures
        res@ == join_spec(base@, rel@),
{
    if rel.len() > 0 && rel[0] == '/' {
        let mut r = Vec::new();
        crate::text::append_chars(&mut r, rel);
        assert(r@ =~= rel@);
        return r;
    }
    let mut r = Vec::new();
    crate::text::append_chars(&mut r, base);
    if base.len() > 0 && base[base.len() - 1] != '/' {
        r.push('/');
    }
    crate::text::append_chars(&mut r, rel);
    assert(r@ =~= join_spec(base@, rel@));
    r
}


// ---------------------------------------------------------------------------
// Laws.

/// A path that is empty, starts at the root, or starts with `.` is not a
/// plain relative path; neither is one with a `..` component.
pub proof fn lemma_unsafe_shapes(p: Seq<char>)
    ensures
        p.len() == 0 ==> !is_safe_relative_spec(p),
        has_root(p) ==> !is_safe_relative_spec(p),
        has_cur_dir(p) ==> !is_safe_relative_spec(p),
        (exists|i: int|
            0 <= i < components(p).len() && components(p)[i] == PathComponent::ParentDir)
            ==> !is_safe_relative_spec(p),
{
    if has_root(p) {
        assert(components(p)[0] == PathComponent::RootDir);
    }
    if has_cur_dir(p) {
        assert(components(p)[0] == PathComponent::CurDir);
    }
}

proof fn lemma_body_components_split(t: Seq<char>, u: Seq<char>)
    ensures
        body_components(t + seq!['/'] + u) == body_components(t) + body_components(u),
    decreases t.len(),
{
    let x = t + seq!['/'] + u;
    let k = seg_len(t);
    lemma_seg_len_bound(t);
    if k < t.len() {
        assert forall|j: int| 0 <= j < k implies x[j] != '/' && t[j] != '/' by {
            lemma_seg_len_no_slash(t, j);
        }
        lemma_seg_len(x, k as int);
        lemma_body_components_split(t.skip(k as int + 1), u);
        assert(x.take(k as int) =~= t.take(k as int));
        assert(x.skip(k as int + 1) =~= t.skip(k as int + 1) + seq!['/'] + u);
    } else {
        assert forall|j: int| 0 <= j < t.len() implies x[j] != '/' by {
            lemma_seg_len_no_slash(t, j);
        }
        lemma_seg_len(x, t.len() as int);
        assert(x.take(t.len() as int) =~= t);
        assert(x.skip(t.len() as int + 1) =~= u);
        if t.len() == 0 {
            assert(segment_component(t) =~= Seq::<PathComponent>::empty());
        }
    }
}

proof fn lemma_seg_len_bound(t: Seq<char>)
    ensures
        seg_len(t) <= t.len(),
        seg_len(t) < t.len() ==> t[seg_len(t) as int] == '/',
    decreases t.len(),
{
    if t.len() > 0 && t[0] != '/' {
        lemma_seg_len_bound(t.drop_first());
    }
}

proof fn lemma_seg_len_no_slash(t: Seq<char>, j: int)
    requires
        0 <= j < seg_len(t),
    ensures
        t[j] != '/',
    decreases t.len(),
{
    lemma_seg_len_bound(t);
    assert(t.len() > 0 && t[0] != '/');
    if j > 0 {
        lemma_seg_len_no_slash(t.drop_first(), j - 1);
        assert(t[j] == t.drop_first()[j - 1]);
    }
}

/// A plain relative path joined with a plain file name `f` has exactly one
/// more component, `f`: so it lies inside the path, and is plain itself.
pub proof fn lemma_join_name(d: Seq<char>, f: Seq<char>)
    requires
        is_safe_relative_spec(d),
        f.len() > 0,
        f[0] != '/',
        forall|i: int| 0 <= i < f.len() ==> f[i] != '/',
        f != seq!['.'],
        f != seq!['.', '.'],
    ensures
        components(join_spec(d, f)) == components(d) + seq![PathComponent::Normal(f)],
        starts_with_spec(join_spec(d, f), d),
        is_safe_relative_spec(join_spec(d, f)),
{
    lemma_unsafe_shapes(d);
    let j = join_spec(d, f);
    lemma_seg_len(f, f.len() as int);
    assert(body_components(f) == segment_component(f));
    assert(segment_component(f) == seq![PathComponent::Normal(f)]);
    if d.last() == '/' {
        let d0 = d.drop_last();
        assert(j =~= d0 + seq!['/'] + f);
        assert(d =~= d0 + seq!['/'] + Seq::<char>::empty());
        lemma_body_components_split(d0, f);
        lemma_body_components_split(d0, Seq::<char>::empty());
        assert(body_components(Seq::<char>::empty()) =~= Seq::<PathComponent>::empty());
        assert(body_components(d0) + Seq::<PathComponent>::empty() =~= body_components(d0));
    } else {
        assert(j =~= d + seq!['/'] + f);
        lemma_body_components_split(d, f);
    }
    assert(j[0] == d[0]);
    if d.len() > 1 {
        assert(j[1] == d[1]);
    } else {
        assert(j[1] == '/');
    }
    assert(!has_root(j) && !has_cur_dir(j));
    assert(j.skip(0) =~= j);
    assert(d.skip(0) =~= d);
    assert(components(j) =~= components(d) + seq![PathComponent::Normal(f)]);
    assert(components(j).take(components(d).len() as int) =~= components(d));
    assert forall|i: int| 0 <= i < components(j).len() implies (#[trigger] components(j)[i]) is Normal by {
        if i < components(d).len() {
            assert(components(j)[i] == components(d)[i]);
        }
    }
}


/// Joining a plain relative path `p` onto any path `r` appends the
/// components of `p` to those of `r`: the result lies strictly inside `r`,
/// never at `r` itself nor outside it.
pub proof fn lemma_join_components(r: Seq<char>, p: Seq<char>)
    requires
        is_safe_relative_spec(p),
    ensures
        components(join_spec(r, p)) == components(r) + components(p),
        starts_with_spec(join_spec(r, p), r),
        components(join_spec(r, p)).len() > components(r).len(),
{
    lemma_unsafe_shapes(p);
    let x = join_spec(r, p);
    assert(p.skip(0) =~= p);
    assert(components(p) == body_components(p));
    lemma_body_dot();
    let b = body_start(r);
    if r.len() == 0 {
        assert(x == p);
        assert(r.skip(0) =~= Seq::<char>::empty());
        assert(components(r) =~= Seq::<PathComponent>::empty());
        assert(components(x) =~= components(r) + components(p));
    } else {
        // The head is unchanged.
        assert(x[0] == r[0]);
        if r.len() >= 2 {
            assert(x[1] == r[1]);
        }
        if r.last() == '/' && r.len() == b {
            assert(r =~= seq!['/']);
            assert(x =~= seq!['/'] + p);
            assert(r.skip(1) =~= Seq::<char>::empty());
            assert(x.skip(1) =~= p);
        } else if r.last() == '/' {
            let t0 = r.subrange(b, r.len() - 1);
            assert(r.skip(b) =~= t0 + seq!['/'] + Seq::<char>::empty());
            assert(x.skip(b) =~= t0 + seq!['/'] + p);
            lemma_body_components_split(t0, Seq::<char>::empty());
            lemma_body_components_split(t0, p);
            assert(body_components(t0) + Seq::<PathComponent>::empty() =~= body_components(t0));
        } else {
            assert(x =~= r + seq!['/'] + p);
            if r.len() == 1 {
                assert(x[1] == '/');
            }
            assert(x.skip(b) =~= r.skip(b) + seq!['/'] + p);
            lemma_body_components_split(r.skip(b), p);
        }
        assert(body_start(x) == b);
        assert(components(x) =~= components(r) + components(p));
    }
    assert(components(x).take(components(r).len() as int) =~= components(r));
    assert(components(p).len() > 0) by {
        assert(p[0] != '/');
        if components(p).len() == 0 {
            lemma_nonempty_relative_has_component(p);
        }
    }
}

proof fn lemma_nonempty_relative_has_component(p: Seq<char>)
    requires
        p.len() > 0,
        !has_root(p),
        !has_cur_dir(p),
    ensures
        components(p).len() > 0,
{
    assert(p.skip(0) =~= p);
    let k = seg_len(p);
    lemma_seg_len_bound(p);
    assert(k > 0);
    assert forall|j: int| 0 <= j < k implies p[j] != '/' by {
        lemma_seg_len_no_slash(p, j);
    }
    let seg = p.take(k as int);
    assert(seg != seq!['.']) by {
        if seg == seq!['.'] {
            assert(seg.len() == 1);
            assert(k == 1);
            assert(p[0] == seg[0]);
            if k < p.len() {
                assert(p[k as int] == '/');
            }
        }
    }
    assert(segment_component(seg).len() == 1);
    if k < p.len() {
        assert(body_components(p) == segment_component(seg) + body_components(p.skip(k as int + 1)));
    } else {
        assert(seg =~= p);
    }
}

/// Joining two plain relative paths gives a plain relative path, and the
/// parent of a plain relative path, when it has components, is one too.
pub proof fn lemma_plain_closed(p: Seq<char>, q: Seq<char>)
    requires
        is_safe_relative_spec(p),
        is_safe_relative_spec(q),
    ensures
        is_safe_relative_spec(join_spec(p, q)),
        match parent_spec(p) {
            Some(x) => components(x).len() > 0 ==> is_safe_relative_spec(x),
            None => true,
        },
{
    lemma_join_components(p, q);
    let j = join_spec(p, q);
    assert(j.len() > 0);
    assert forall|i: int| 0 <= i < components(j).len() implies (#[trigger] components(j)[i]) is Normal by {
        if i < components(p).len() {
            assert(components(j)[i] == components(p)[i]);
        } else {
            assert(components(j)[i] == components(q)[i - components(p).len()]);
        }
    }
    lemma_parent_components(p);
    if let Some(x) = parent_spec(p) {
        if components(x).len() > 0 {
            assert(x.len() > 0) by {
                if x.len() == 0 {
                    assert(x.skip(0) =~= x);
                    assert(components(x) =~= Seq::<PathComponent>::empty());
                }
            }
            assert forall|i: int| 0 <= i < components(x).len() implies (#[trigger] components(x)[i]) is Normal by {
                assert(components(x)[i] == components(p)[i]);
            }
        }
    }
}

proof fn lemma_body_dot()
    ensures
        body_components(seq!['.']) == Seq::<PathComponent>::empty(),
        body_components(Seq::<char>::empty()) == Seq::<PathComponent>::empty(),
{
    lemma_seg_len(seq!['.'], 1);
}

/// Trimming empty and `.` segments off the end does not change the body's
/// components, and trimming stops at a real component.
proof fn lemma_strip_trailing_components(p: Seq<char>, b: int, e: int)
    requires
        0 <= b <= e <= p.len(),
    ensures
        b <= strip_trailing(p, b, e) <= e,
        body_components(p.subrange(b, strip_trailing(p, b, e))) == body_components(p.subrange(b, e)),
        strip_trailing(p, b, e) > b ==> ({
            let t = strip_trailing(p, b, e);
            p[t - 1] != '/' && !(p[t - 1] == '.' && (t - 1 == b || p[t - 2] == '/'))
        }),
    decreases e - b,
{
    lemma_body_dot();
    if e > b {
        if p[e - 1] == '/' {
            lemma_strip_trailing_components(p, b, e - 1);
            lemma_body_components_split(p.subrange(b, e - 1), Seq::<char>::empty());
            assert(p.subrange(b, e) =~= p.subrange(b, e - 1) + seq!['/'] + Seq::<char>::empty());
            assert(body_components(p.subrange(b, e - 1)) + Seq::<PathComponent>::empty() =~= body_components(
                p.subrange(b, e - 1),
            ));
        } else if p[e - 1] == '.' && (e - 1 == b || p[e - 2] == '/') {
            if e - 1 > b {
                lemma_strip_trailing_components(p, b, e - 2);
                lemma_body_components_split(p.subrange(b, e - 2), seq!['.']);
                assert(p.subrange(b, e) =~= p.subrange(b, e - 2) + seq!['/'] + seq!['.']);
                assert(body_components(p.subrange(b, e - 2)) + Seq::<PathComponent>::empty() =~= body_components(
                    p.subrange(b, e - 2),
                ));
            } else {
                assert(p.subrange(b, e) =~= seq!['.']);
                assert(p.subrange(b, e - 1) =~= Seq::<char>::empty());
            }
        }
    }
}

proof fn lemma_piece_start(p: Seq<char>, b: int, e: int)
    requires
        0 <= b <= e <= p.len(),
    ensures
        b <= piece_start(p, b, e) <= e,
        piece_start(p, b, e) == b || p[piece_start(p, b, e) - 1] == '/',
        forall|j: int| piece_start(p, b, e) <= j < e ==> p[j] != '/',
    decreases e - b,
{
    if e > b && p[e - 1] != '/' {
        lemma_piece_start(p, b, e - 1);
    }
}

/// The parent of a path has its components but the last; only a path
/// without components, or the root alone, has no parent.
pub proof fn lemma_parent_components(p: Seq<char>)
    ensures
        parent_spec(p) matches Some(q) ==> components(p).len() > 0 && components(q) == components(
            p,
        ).drop_last(),
        parent_spec(p) is None ==> components(p).len() == 0 || components(p) == seq![
            PathComponent::RootDir,
        ],
{
    let b = body_start(p);
    let n = p.len() as int;
    let e = strip_trailing(p, b, n);
    lemma_body_dot();
    lemma_strip_trailing_components(p, b, n);
    assert(p.skip(b) =~= p.subrange(b, n));
    let head = if has_root(p) {
        seq![PathComponent::RootDir]
    } else if has_cur_dir(p) {
        seq![PathComponent::CurDir]
    } else {
        Seq::<PathComponent>::empty()
    };
    assert(components(p) == head + body_components(p.subrange(b, e)));
    if e > b {
        let s = piece_start(p, b, e);
        lemma_piece_start(p, b, e);
        let piece = p.subrange(s, e);
        assert forall|j: int| 0 <= j < piece.len() implies piece[j] != '/' by {
            assert(piece[j] == p[s + j]);
        }
        assert(s < e);
        lemma_seg_len(piece, piece.len() as int);
        assert(piece != seq!['.']) by {
            if piece == seq!['.'] {
                assert(piece[0] == p[e - 1]);
                assert(s == e - 1);
            }
        }
        let c = segment_component(piece);
        assert(c.len() == 1);
        let cut = if s > b {
            s - 1
        } else {
            s
        };
        let body_before = if s > b {
            body_components(p.subrange(b, s - 1))
        } else {
            Seq::<PathComponent>::empty()
        };
        if s > b {
            lemma_body_components_split(p.subrange(b, s - 1), piece);
            assert(p.subrange(b, e) =~= p.subrange(b, s - 1) + seq!['/'] + piece);
        } else {
            assert(p.subrange(b, e) =~= piece);
        }
        assert(body_components(p.subrange(b, e)) == body_before + c);
        lemma_strip_trailing_components(p, b, cut);
        let pe = strip_trailing(p, b, cut);
        let q = p.take(pe);
        assert(body_components(p.subrange(b, pe)) == body_before) by {
            if s <= b {
                assert(p.subrange(b, cut) =~= Seq::<char>::empty());
            }
        }
        assert(parent_spec(p) == Some(q));
        // The parent keeps the same head.
        if pe >= 1 {
            assert(q[0] == p[0]);
        }
        if pe >= 2 {
            assert(q[1] == p[1]);
        }
        assert(body_start(q) == b) by {
            if b == 0 && pe == 1 {
                assert(p[0] != '.');
            }
        }
        assert(q.skip(b) =~= p.subrange(b, pe));
        assert(components(q) =~= head + body_before);
        assert(components(p) =~= head + body_before + c);
        assert(components(p).drop_last() =~= head + body_before);
    } else {
        assert(p.subrange(b, e) =~= Seq::<char>::empty());
        assert(components(p) =~= head);
        if has_cur_dir(p) {
            assert(parent_spec(p) == Some(p.take(0)));
            assert(p.take(0) =~= Seq::<char>::empty());
            assert(components(p.take(0)) =~= Seq::<PathComponent>::empty());
        }
    }
}

} // verus!
