//! A model of Unix paths as text: splitting into components, joining,
//! normalising, stripping a base directory and taking the parent.

use vstd::prelude::*;
use crate::text::{chars_of, push_char, string_from_chars};

verus! {

/// The pieces of `s` between occurrences of `sep`, empty pieces included
/// (the behaviour of `str::split` with a `char` pattern).
pub open spec fn split_on(s: Seq<char>, sep: char) -> Seq<Seq<char>>
    decreases s.len(),
{
    if s.len() == 0 {
        seq![Seq::<char>::empty()]
    } else {
        let rest = split_on(s.drop_last(), sep);
        if s.last() == sep {
            rest.push(Seq::<char>::empty())
        } else {
            rest.update(rest.len() - 1, rest.last().push(s.last()))
        }
    }
}

/// `parts` joined with `sep` between consecutive parts (`[T]::join`).
pub open spec fn join_with(parts: Seq<Seq<char>>, sep: char) -> Seq<char>
    decreases parts.len(),
{
    if parts.len() == 0 {
        Seq::<char>::empty()
    } else if parts.len() == 1 {
        parts[0]
    } else {
        join_with(parts.drop_last(), sep) + seq![sep] + parts.last()
    }
}

/// A component of a path, as `std::path::Component` has them on Unix.
pub enum Comp {
    RootDir,
    CurDir,
    ParentDir,
    Normal(Seq<char>),
}

pub open spec fn dot() -> Seq<char> {
    seq!['.']
}

pub open spec fn dot_dot() -> Seq<char> {
    seq!['.', '.']
}

/// The component, if any, that the `i`-th `/`-separated piece of a path gives.
/// Empty pieces and `.` give none, except that a leading `.` is kept.
pub open spec fn piece_comps(p: Seq<char>, i: int) -> Seq<Comp> {
    if p.len() == 0 {
        Seq::<Comp>::empty()
    } else if p == dot() {
        if i == 0 { seq![Comp::CurDir] } else { Seq::<Comp>::empty() }
    } else if p == dot_dot() {
        seq![Comp::ParentDir]
    } else {
        seq![Comp::Normal(p)]
    }
}

pub open spec fn pieces_comps(pieces: Seq<Seq<char>>) -> Seq<Comp>
    decreases pieces.len(),
{
    if pieces.len() == 0 {
        Seq::<Comp>::empty()
    } else {
        pieces_comps(pieces.drop_last()) + piece_comps(pieces.last(), pieces.len() - 1)
    }
}

/// Whether a path is absolute (on Unix: it starts with `/`).
pub open spec fn is_absolute_text(s: Seq<char>) -> bool {
    s.len() > 0 && s[0] == '/'
}

/// The components of a path (`Path::components`).
pub open spec fn components(s: Seq<char>) -> Seq<Comp> {
    if is_absolute_text(s) {
        seq![Comp::RootDir] + pieces_comps(split_on(s, '/'))
    } else {
        pieces_comps(split_on(s, '/'))
    }
}

/// The names that remain after resolving `..` against earlier names; the root
/// and `.` are dropped, and a `..` with nothing before it is dropped too.
pub open spec fn resolve_names(cs: Seq<Comp>) -> Seq<Seq<char>>
    decreases cs.len(),
{
    if cs.len() == 0 {
        Seq::<Seq<char>>::empty()
    } else {
        let st = resolve_names(cs.drop_last());
        match cs.last() {
            Comp::Normal(name) => st.push(name),
            Comp::ParentDir => if st.len() > 0 { st.drop_last() } else { st },
            _ => st,
        }
    }
}

/// The normalised relative form of a path: its resolved names joined by `/`.
pub open spec fn normalized(s: Seq<char>) -> Seq<char> {
    join_with(resolve_names(components(s)), '/')
}

/// `base` joined with `seg` as `Path::join` does on Unix: an absolute `seg`
/// replaces `base`, otherwise a `/` is put between them unless `base` is empty
/// or already ends with one.
pub open spec fn join_text(base: Seq<char>, seg: Seq<char>) -> Seq<char> {
    if is_absolute_text(seg) {
        seg
    } else if base.len() == 0 || base.last() == '/' {
        base + seg
    } else {
        base + seq!['/'] + seg
    }
}

/// The components of `cs` after the prefix `base`, if `base` is a prefix.
pub open spec fn strip_comps(cs: Seq<Comp>, base: Seq<Comp>) -> Option<Seq<Comp>> {
    if base.len() <= cs.len() && cs.take(base.len() as int) == base {
        Some(cs.skip(base.len() as int))
    } else {
        None
    }
}

/// The text of a component list: the root as a leading `/`, the other
/// components joined by `/`.
pub open spec fn comp_text(c: Comp) -> Seq<char> {
    match c {
        Comp::RootDir => seq!['/'],
        Comp::CurDir => dot(),
        Comp::ParentDir => dot_dot(),
        Comp::Normal(name) => name,
    }
}

pub open spec fn render(cs: Seq<Comp>) -> Seq<char> {
    if cs.len() > 0 && cs[0] == Comp::RootDir {
        seq!['/'] + join_with(cs.skip(1).map_values(|c: Comp| comp_text(c)), '/')
    } else {
        join_with(cs.map_values(|c: Comp| comp_text(c)), '/')
    }
}

/// The parent of a path (`Path::parent`): the path without its last
/// component, when that component is not the root.
pub open spec fn parent_text(s: Seq<char>) -> Option<Seq<char>> {
    let cs = components(s);
    if cs.len() == 0 || cs.last() == Comp::RootDir {
        None
    } else {
        Some(render(cs.drop_last()))
    }
}

} // verus!

verus! {

/// A path component held by executable code.
pub enum PathComponent {
    RootDir,
    CurDir,
    ParentDir,
    Normal(Vec<char>),
}

impl View for PathComponent {
    type V = Comp;

    open spec fn view(&self) -> Comp {
        match self {
            PathComponent::RootDir => Comp::RootDir,
            PathComponent::CurDir => Comp::CurDir,
            PathComponent::ParentDir => Comp::ParentDir,
            PathComponent::Normal(v) => Comp::Normal(v@),
        }
    }
}

pub open spec fn comps_view(v: Seq<PathComponent>) -> Seq<Comp> {
    v.map_values(|c: PathComponent| c@)
}

pub open spec fn names_view(v: Seq<Vec<char>>) -> Seq<Seq<char>> {
    v.map_values(|x: Vec<char>| x@)
}

fn copy_chars(v: &Vec<char>) -> (r: Vec<char>)
    ensures
        r@ == v@,
{
    let mut r: Vec<char> = Vec::new();
    let mut i: usize = 0;
    while i < v.len()
        invariant
            i <= v@.len(),
            r@ == v@.subrange(0, i as int),
        decreases v@.len() - i,
    {
        r.push(v[i]);
        i = i + 1;
        assert(r@ =~= v@.subrange(0, i as int));
    }
    assert(r@ =~= v@);
    r
}

/// Whether the characters of `v` are exactly those of `lit`.
pub fn chars_eq(v: &Vec<char>, lit: &Vec<char>) -> (b: bool)
    ensures
        b == (v@ == lit@),
{
    if v.len() != lit.len() {
        return false;
    }
    let mut i: usize = 0;
    while i < v.len()
        invariant
            v@.len() == lit@.len(),
            i <= v@.len(),
            forall|j: int| 0 <= j < i ==> v@[j] == lit@[j],
        decreases v@.len() - i,
    {
        if v[i] != lit[i] {
            return false;
        }
        i = i + 1;
    }
    assert(v@ =~= lit@);
    true
}

fn push_piece(out: &mut Vec<PathComponent>, piece: &Vec<char>, idx: usize)
    ensures
        comps_view(final(out)@) == comps_view(old(out)@) + piece_comps(piece@, idx as int),
{
    let ghost before = comps_view(out@);
    if piece.len() == 0 {
    } else if piece.len() == 1 && piece[0] == '.' {
        assert(piece@ =~= dot());
        if idx == 0 {
            out.push(PathComponent::CurDir);
        }
    } else if piece.len() == 2 && piece[0] == '.' && piece[1] == '.' {
        assert(piece@ =~= dot_dot());
        out.push(PathComponent::ParentDir);
    } else {
        assert(piece@ != dot());
        assert(piece@ != dot_dot());
        out.push(PathComponent::Normal(copy_chars(piece)));
    }
    assert(comps_view(out@) =~= before + piece_comps(piece@, idx as int));
}

proof fn lemma_split_step(s: Seq<char>, i: int, sep: char)
    requires
        0 <= i < s.len(),
    ensures
        s.take(i + 1).drop_last() == s.take(i),
        s.take(i + 1).last() == s[i],
        split_on(s.take(i + 1), sep) == (if s[i] == sep {
            split_on(s.take(i), sep).push(Seq::<char>::empty())
        } else {
            let rest = split_on(s.take(i), sep);
            rest.update(rest.len() - 1, rest.last().push(s[i]))
        }),
{
    assert(s.take(i + 1).drop_last() =~= s.take(i));
}

pub(crate) proof fn lemma_split_nonempty(s: Seq<char>, sep: char)
    ensures
        split_on(s, sep).len() >= 1,
        split_on(s, sep).len() <= s.len() + 1,
    decreases s.len(),
{
    if s.len() > 0 {
        lemma_split_nonempty(s.drop_last(), sep);
    }
}

/// The components of a path (`Path::components`).
pub fn path_components(s: &str) -> (r: Vec<PathComponent>)
    ensures
        comps_view(r@) == components(s@),
{
    let cs = chars_of(s);
    let n = cs.len();
    let mut out: Vec<PathComponent> = Vec::new();
    if n > 0 && cs[0] == '/' {
        out.push(PathComponent::RootDir);
    }
    let ghost root_part = comps_view(out@);
    assert(root_part =~= (if is_absolute_text(s@) { seq![Comp::RootDir] } else { Seq::<Comp>::empty() }));
    let mut cur: Vec<char> = Vec::new();
    let mut idx: usize = 0;
    let mut i: usize = 0;
    assert(cs@.take(0) =~= Seq::<char>::empty());
    while i < n
        invariant
            n == cs@.len(),
            cs@ == s@,
            i <= n,
            idx <= i,
            split_on(cs@.take(i as int), '/').len() == idx + 1,
            split_on(cs@.take(i as int), '/').last() == cur@,
            comps_view(out@) == root_part + pieces_comps(split_on(cs@.take(i as int), '/').drop_last()),
        decreases n - i,
    {
        let ghost pieces = split_on(cs@.take(i as int), '/');
        proof { lemma_split_step(cs@, i as int, '/'); }
        let c = cs[i];
        if c == '/' {
            push_piece(&mut out, &cur, idx);
            proof {
                let np = pieces.push(Seq::<char>::empty());
                assert(np.drop_last() =~= pieces);
                assert(pieces =~= pieces.drop_last().push(pieces.last()));
                assert(pieces_comps(pieces) == pieces_comps(pieces.drop_last()) + piece_comps(cur@, idx as int));
            }
            cur = Vec::new();
            idx = idx + 1;
        } else {
            cur.push(c);
            proof {
                let np = pieces.update(pieces.len() - 1, pieces.last().push(c));
                assert(np.drop_last() =~= pieces.drop_last());
            }
        }
        i = i + 1;
    }
    push_piece(&mut out, &cur, idx);
    proof {
        assert(cs@.take(n as int) =~= s@);
        let pieces = split_on(s@, '/');
        assert(pieces_comps(pieces) == pieces_comps(pieces.drop_last()) + piece_comps(cur@, idx as int));
        assert(comps_view(out@) =~= components(s@));
    }
    out
}

} // verus!

verus! {

/// The names left after resolving `..` in a component list.
pub fn resolve_component_names(cs: &Vec<PathComponent>) -> (r: Vec<Vec<char>>)
    ensures
        names_view(r@) == resolve_names(comps_view(cs@)),
{
    let mut st: Vec<Vec<char>> = Vec::new();
    let mut i: usize = 0;
    while i < cs.len()
        invariant
            i <= cs@.len(),
            names_view(st@) == resolve_names(comps_view(cs@).take(i as int)),
        decreases cs@.len() - i,
    {
        let ghost prev = names_view(st@);
        assert(comps_view(cs@).take(i + 1).drop_last() =~= comps_view(cs@).take(i as int));
        assert(comps_view(cs@).take(i + 1).last() == cs@[i as int]@);
        match &cs[i] {
            PathComponent::Normal(name) => {
                st.push(copy_chars(name));
                assert(names_view(st@) =~= prev.push(name@));
            },
            PathComponent::ParentDir => {
                if st.len() > 0 {
                    st.pop();
                    assert(names_view(st@) =~= prev.drop_last());
                }
            },
            _ => {},
        }
        i = i + 1;
    }
    assert(comps_view(cs@).take(cs@.len() as int) =~= comps_view(cs@));
    st
}

/// The parts joined with `sep` between consecutive parts.
pub fn join_chars(parts: &Vec<Vec<char>>, sep: char) -> (r: Vec<char>)
    ensures
        r@ == join_with(names_view(parts@), sep),
{
    let mut r: Vec<char> = Vec::new();
    let mut i: usize = 0;
    while i < parts.len()
        invariant
            i <= parts@.len(),
            r@ == join_with(names_view(parts@).take(i as int), sep),
        decreases parts@.len() - i,
    {
        let ghost prev = r@;
        let ghost ps = names_view(parts@);
        assert(ps.take(i + 1).drop_last() =~= ps.take(i as int));
        assert(ps.take(i + 1).last() == parts@[i as int]@);
        if i > 0 {
            r.push(sep);
        }
        let part = &parts[i];
        let mut j: usize = 0;
        let ghost mid = r@;
        while j < part.len()
            invariant
                j <= part@.len(),
                r@ == mid + part@.subrange(0, j as int),
            decreases part@.len() - j,
        {
            r.push(part[j]);
            j = j + 1;
            assert(r@ =~= mid + part@.subrange(0, j as int));
        }
        assert(part@.subrange(0, part@.len() as int) =~= part@);
        if i == 0 {
            assert(ps.take(1) =~= seq![part@]);
            assert(r@ =~= join_with(ps.take(1), sep));
        } else {
            assert(r@ =~= prev + seq![sep] + part@);
        }
        i = i + 1;
    }
    assert(names_view(parts@).take(parts@.len() as int) =~= names_view(parts@));
    r
}

/// Whether a path is absolute.
pub fn is_absolute(s: &str) -> (b: bool)
    ensures
        b == is_absolute_text(s@),
{
    s.unicode_len() > 0 && s.get_char(0) == '/'
}

/// `base` joined with `seg` as `Path::join` does.
pub fn join_path(base: &str, seg: &str) -> (r: String)
    ensures
        r@ == join_text(base@, seg@),
{
    if is_absolute(seg) {
        return seg.to_owned();
    }
    let n = base.unicode_len();
    let mut r = base.to_owned();
    if n > 0 && base.get_char(n - 1) != '/' {
        push_char(&mut r, '/');
    }
    r.append(seg);
    r
}

} // verus!

verus! {

fn component_eq(a: &PathComponent, b: &PathComponent) -> (r: bool)
    ensures
        r == (a@ == b@),
{
    match (a, b) {
        (PathComponent::RootDir, PathComponent::RootDir) => true,
        (PathComponent::CurDir, PathComponent::CurDir) => true,
        (PathComponent::ParentDir, PathComponent::ParentDir) => true,
        (PathComponent::Normal(x), PathComponent::Normal(y)) => chars_eq(x, y),
        _ => false,
    }
}

fn copy_component(c: &PathComponent) -> (r: PathComponent)
    ensures
        r@ == c@,
{
    match c {
        PathComponent::RootDir => PathComponent::RootDir,
        PathComponent::CurDir => PathComponent::CurDir,
        PathComponent::ParentDir => PathComponent::ParentDir,
        PathComponent::Normal(x) => PathComponent::Normal(copy_chars(x)),
    }
}

/// The components of `cs` after the prefix `base` (`Path::strip_prefix`).
pub fn strip_components(cs: &Vec<PathComponent>, base: &Vec<PathComponent>) -> (r: Option<
    Vec<PathComponent>,
>)
    ensures
        match r {
            Some(rest) => strip_comps(comps_view(cs@), comps_view(base@)) == Some(comps_view(rest@)),
            None => strip_comps(comps_view(cs@), comps_view(base@)) is None,
        },
{
    let ghost c = comps_view(cs@);
    let ghost b = comps_view(base@);
    if base.len() > cs.len() {
        return None;
    }
    let mut i: usize = 0;
    while i < base.len()
        invariant
            base@.len() <= cs@.len(),
            i <= base@.len(),
            c == comps_view(cs@),
            b == comps_view(base@),
            forall|j: int| 0 <= j < i ==> c[j] == b[j],
        decreases base@.len() - i,
    {
        if !component_eq(&cs[i], &base[i]) {
            assert(c.take(b.len() as int)[i as int] != b[i as int]);
            return None;
        }
        i = i + 1;
    }
    assert(c.take(b.len() as int) =~= b);
    let mut rest: Vec<PathComponent> = Vec::new();
    let mut k: usize = base.len();
    while k < cs.len()
        invariant
            base@.len() <= k <= cs@.len(),
            c == comps_view(cs@),
            comps_view(rest@) == c.subrange(base@.len() as int, k as int),
        decreases cs@.len() - k,
    {
        let ghost prev = comps_view(rest@);
        let item = copy_component(&cs[k]);
        assert(item@ == c[k as int]);
        rest.push(item);
        assert(comps_view(rest@) =~= prev.push(c[k as int]));
        k = k + 1;
        assert(comps_view(rest@) =~= c.subrange(base@.len() as int, k as int));
    }
    assert(c.skip(b.len() as int) =~= c.subrange(base@.len() as int, cs@.len() as int));
    Some(rest)
}

} // verus!

verus! {

fn component_text(c: &PathComponent) -> (r: Vec<char>)
    ensures
        r@ == comp_text(c@),
{
    match c {
        PathComponent::RootDir => {
            let mut v = Vec::new();
            v.push('/');
            assert(v@ =~= seq!['/']);
            v
        },
        PathComponent::CurDir => {
            let mut v = Vec::new();
            v.push('.');
            assert(v@ =~= dot());
            v
        },
        PathComponent::ParentDir => {
            let mut v = Vec::new();
            v.push('.');
            v.push('.');
            assert(v@ =~= dot_dot());
            v
        },
        PathComponent::Normal(x) => copy_chars(x),
    }
}

/// The text of the first `len` components of `cs`.
fn render_prefix(cs: &Vec<PathComponent>, len: usize) -> (r: Vec<char>)
    requires
        len <= cs@.len(),
    ensures
        r@ == render(comps_view(cs@).take(len as int)),
{
    let ghost v = comps_view(cs@).take(len as int);
    let rooted = len > 0 && match &cs[0] {
        PathComponent::RootDir => true,
        _ => false,
    };
    assert(rooted == (v.len() > 0 && v[0] == Comp::RootDir));
    let start: usize = if rooted { 1 } else { 0 };
    let mut texts: Vec<Vec<char>> = Vec::new();
    let mut k: usize = start;
    while k < len
        invariant
            start <= k <= len <= cs@.len(),
            v == comps_view(cs@).take(len as int),
            names_view(texts@) == v.subrange(start as int, k as int).map_values(|c: Comp| comp_text(c)),
        decreases len - k,
    {
        let t = component_text(&cs[k]);
        let ghost before = names_view(texts@);
        texts.push(t);
        assert(names_view(texts@) =~= before.push(comp_text(v[k as int])));
        k = k + 1;
        assert(names_view(texts@) =~= v.subrange(start as int, k as int).map_values(|c: Comp| comp_text(c)));
    }
    let body = join_chars(&texts, '/');
    if rooted {
        assert(v.skip(1) =~= v.subrange(1, len as int));
        let mut r: Vec<char> = Vec::new();
        r.push('/');
        let mut j: usize = 0;
        while j < body.len()
            invariant
                j <= body@.len(),
                r@ == seq!['/'] + body@.take(j as int),
            decreases body@.len() - j,
        {
            r.push(body[j]);
            j = j + 1;
            assert(r@ =~= seq!['/'] + body@.take(j as int));
        }
        assert(body@.take(body@.len() as int) =~= body@);
        r
    } else {
        assert(v =~= v.subrange(0, len as int));
        body
    }
}

/// The parent of a path (`Path::parent`): the path without its last
/// component; `None` for the root and for the empty path.
pub fn parent_dir(path: &str) -> (r: Option<String>)
    ensures
        match r {
            Some(p) => parent_text(path@) == Some(p@),
            None => parent_text(path@) is None,
        },
{
    let cs = path_components(path);
    let n = cs.len();
    if n == 0 {
        return None;
    }
    assert(comps_view(cs@).last() == cs@[n - 1]@);
    match &cs[n - 1] {
        PathComponent::RootDir => None,
        _ => {
            assert(comps_view(cs@).drop_last() =~= comps_view(cs@).take(n - 1));
            let text = render_prefix(&cs, n - 1);
            Some(string_from_chars(text.as_slice()))
        },
    }
}

} // verus!

verus! {

/// A name that survives normalisation unchanged: non-empty, neither `.` nor
/// `..`, and without `/`.
pub open spec fn plain_name(n: Seq<char>) -> bool {
    n.len() > 0 && n != dot() && n != dot_dot() && !n.contains('/')
}

proof fn lemma_split_pieces_plain(s: Seq<char>, sep: char)
    ensures
        forall|k: int| 0 <= k < split_on(s, sep).len() ==> !(#[trigger] split_on(s, sep)[k]).contains(sep),
    decreases s.len(),
{
    if s.len() > 0 {
        let rest = split_on(s.drop_last(), sep);
        lemma_split_pieces_plain(s.drop_last(), sep);
        lemma_split_nonempty(s.drop_last(), sep);
        let r = split_on(s, sep);
        assert forall|k: int| 0 <= k < r.len() implies !(#[trigger] r[k]).contains(sep) by {
            if s.last() == sep {
                if k < rest.len() {
                    assert(r[k] == rest[k]);
                } else {
                    assert(r[k] =~= Seq::<char>::empty());
                }
            } else if k < rest.len() - 1 {
                assert(r[k] == rest[k]);
            } else {
                let p = rest.last();
                assert(r[k] == p.push(s.last()));
                assert(!rest[rest.len() - 1].contains(sep));
                if r[k].contains(sep) {
                    let j = choose|j: int| 0 <= j < r[k].len() && r[k][j] == sep;
                    if j < p.len() {
                        assert(p[j] == sep);
                    }
                }
            }
        }
    }
}

proof fn lemma_pieces_comps_plain(pieces: Seq<Seq<char>>)
    requires
        forall|k: int| 0 <= k < pieces.len() ==> !(#[trigger] pieces[k]).contains('/'),
    ensures
        forall|k: int|
            0 <= k < pieces_comps(pieces).len() ==> match #[trigger] pieces_comps(pieces)[k] {
                Comp::Normal(n) => plain_name(n),
                _ => true,
            },
    decreases pieces.len(),
{
    if pieces.len() > 0 {
        let d = pieces.drop_last();
        assert forall|k: int| 0 <= k < d.len() implies !(#[trigger] d[k]).contains('/') by {
            assert(d[k] == pieces[k]);
        }
        lemma_pieces_comps_plain(d);
        let a = pieces_comps(d);
        let b = piece_comps(pieces.last(), pieces.len() - 1);
        assert(pieces_comps(pieces) == a + b);
        assert(!pieces[pieces.len() - 1].contains('/'));
        assert forall|k: int| 0 <= k < (a + b).len() implies match #[trigger] (a + b)[k] {
            Comp::Normal(n) => plain_name(n),
            _ => true,
        } by {
            if k < a.len() {
                assert((a + b)[k] == a[k]);
            } else {
                assert((a + b)[k] == b[k - a.len()]);
            }
        }
    }
}

proof fn lemma_components_plain(s: Seq<char>)
    ensures
        forall|k: int|
            0 <= k < components(s).len() ==> match #[trigger] components(s)[k] {
                Comp::Normal(n) => plain_name(n),
                _ => true,
            },
{
    lemma_split_pieces_plain(s, '/');
    lemma_pieces_comps_plain(split_on(s, '/'));
    let pc = pieces_comps(split_on(s, '/'));
    if is_absolute_text(s) {
        assert forall|k: int| 0 <= k < components(s).len() implies match #[trigger] components(s)[k] {
            Comp::Normal(n) => plain_name(n),
            _ => true,
        } by {
            if k > 0 {
                assert(components(s)[k] == pc[k - 1]);
            }
        }
    }
}

proof fn lemma_resolve_plain(cs: Seq<Comp>)
    requires
        forall|k: int| 0 <= k < cs.len() ==> match #[trigger] cs[k] {
            Comp::Normal(n) => plain_name(n),
            _ => true,
        },
    ensures
        forall|k: int| 0 <= k < resolve_names(cs).len() ==> plain_name(#[trigger] resolve_names(cs)[k]),
    decreases cs.len(),
{
    if cs.len() > 0 {
        let d = cs.drop_last();
        assert forall|k: int| 0 <= k < d.len() implies match #[trigger] d[k] {
            Comp::Normal(n) => plain_name(n),
            _ => true,
        } by {
            assert(d[k] == cs[k]);
        }
        lemma_resolve_plain(d);
        let st = resolve_names(d);
        let last = cs[cs.len() - 1];
        assert(cs.last() == last);
        assert forall|k: int| 0 <= k < resolve_names(cs).len() implies plain_name(#[trigger] resolve_names(cs)[k]) by {
            match last {
                Comp::Normal(n) => {
                    if k < st.len() {
                        assert(resolve_names(cs)[k] == st[k]);
                    }
                },
                Comp::ParentDir => {
                    if st.len() > 0 {
                        assert(resolve_names(cs)[k] == st[k]);
                    }
                },
                _ => {},
            }
        }
    }
}

proof fn lemma_split_no_sep(p: Seq<char>, sep: char)
    requires
        !p.contains(sep),
    ensures
        split_on(p, sep) == seq![p],
    decreases p.len(),
{
    if p.len() > 0 {
        let d = p.drop_last();
        assert(!d.contains(sep)) by {
            if d.contains(sep) {
                let j = choose|j: int| 0 <= j < d.len() && d[j] == sep;
                assert(p[j] == sep);
            }
        }
        lemma_split_no_sep(d, sep);
        assert(p.last() != sep) by {
            assert(p[p.len() - 1] == p.last());
        }
        assert(d.push(p.last()) =~= p);
        assert(seq![d].update(0, d.push(p.last())) =~= seq![p]);
    } else {
        assert(p =~= Seq::<char>::empty());
    }
}

proof fn lemma_split_concat(a: Seq<char>, b: Seq<char>, sep: char)
    ensures
        split_on(a + seq![sep] + b, sep) == split_on(a, sep) + split_on(b, sep),
    decreases b.len(),
{
    let s = a + seq![sep] + b;
    if b.len() == 0 {
        assert(s.drop_last() =~= a);
        assert(s.last() == sep);
        assert(split_on(b, sep) =~= seq![Seq::<char>::empty()]);
        assert(split_on(a, sep).push(Seq::<char>::empty()) =~= split_on(a, sep) + split_on(b, sep));
    } else {
        let b1 = b.drop_last();
        lemma_split_concat(a, b1, sep);
        assert(s.drop_last() =~= a + seq![sep] + b1);
        assert(s.last() == b.last());
        lemma_split_nonempty(b1, sep);
        let x = split_on(a, sep);
        let y = split_on(b1, sep);
        if b.last() == sep {
            assert((x + y).push(Seq::<char>::empty()) =~= x + y.push(Seq::<char>::empty()));
        } else {
            assert((x + y).update((x + y).len() - 1, (x + y).last().push(b.last())) =~= x + y.update(
                y.len() - 1,
                y.last().push(b.last()),
            ));
        }
    }
}

proof fn lemma_split_join(parts: Seq<Seq<char>>)
    requires
        parts.len() > 0,
        forall|k: int| 0 <= k < parts.len() ==> !(#[trigger] parts[k]).contains('/'),
    ensures
        split_on(join_with(parts, '/'), '/') == parts,
    decreases parts.len(),
{
    if parts.len() == 1 {
        lemma_split_no_sep(parts[0], '/');
        assert(parts =~= seq![parts[0]]);
    } else {
        let d = parts.drop_last();
        assert forall|k: int| 0 <= k < d.len() implies !(#[trigger] d[k]).contains('/') by {
            assert(d[k] == parts[k]);
        }
        lemma_split_join(d);
        lemma_split_concat(join_with(d, '/'), parts.last(), '/');
        assert(!parts[parts.len() - 1].contains('/'));
        lemma_split_no_sep(parts.last(), '/');
        assert(d + seq![parts.last()] =~= parts);
    }
}

proof fn lemma_pieces_comps_of_plain(parts: Seq<Seq<char>>)
    requires
        forall|k: int| 0 <= k < parts.len() ==> plain_name(#[trigger] parts[k]),
    ensures
        pieces_comps(parts) == parts.map_values(|n: Seq<char>| Comp::Normal(n)),
    decreases parts.len(),
{
    if parts.len() > 0 {
        let d = parts.drop_last();
        assert forall|k: int| 0 <= k < d.len() implies plain_name(#[trigger] d[k]) by {
            assert(d[k] == parts[k]);
        }
        lemma_pieces_comps_of_plain(d);
        assert(plain_name(parts[parts.len() - 1]));
        assert(parts.map_values(|n: Seq<char>| Comp::Normal(n)) =~= d.map_values(
            |n: Seq<char>| Comp::Normal(n),
        ) + seq![Comp::Normal(parts.last())]);
    } else {
        assert(parts.map_values(|n: Seq<char>| Comp::Normal(n)) =~= Seq::<Comp>::empty());
    }
}

proof fn lemma_resolve_normals(parts: Seq<Seq<char>>)
    ensures
        resolve_names(parts.map_values(|n: Seq<char>| Comp::Normal(n))) == parts,
    decreases parts.len(),
{
    let m = parts.map_values(|n: Seq<char>| Comp::Normal(n));
    if parts.len() > 0 {
        lemma_resolve_normals(parts.drop_last());
        assert(m.drop_last() =~= parts.drop_last().map_values(|n: Seq<char>| Comp::Normal(n)));
        assert(m.last() == Comp::Normal(parts.last()));
        assert(parts.drop_last().push(parts.last()) =~= parts);
    } else {
        assert(parts =~= Seq::<Seq<char>>::empty());
    }
}

/// Normalising is idempotent: a normalised path is its own normal form, so
/// the index key of a path does not change when it is normalised again.
pub proof fn normalize_idempotent(s: Seq<char>)
    ensures
        normalized(normalized(s)) == normalized(s),
{
    let st = resolve_names(components(s));
    lemma_components_plain(s);
    lemma_resolve_plain(components(s));
    let t = join_with(st, '/');
    if st.len() == 0 {
        assert(t =~= Seq::<char>::empty());
        assert(split_on(t, '/') =~= seq![Seq::<char>::empty()]);
        assert(pieces_comps(seq![Seq::<char>::empty()]) =~= Seq::<Comp>::empty()) by {
            let one = seq![Seq::<char>::empty()];
            assert(one.drop_last() =~= Seq::<Seq<char>>::empty());
            assert(one.last().len() == 0);
            assert(pieces_comps(one.drop_last()) =~= Seq::<Comp>::empty());
            assert(piece_comps(one.last(), 0) =~= Seq::<Comp>::empty());
        }
        assert(components(t) =~= Seq::<Comp>::empty());
    } else {
        assert forall|k: int| 0 <= k < st.len() implies !(#[trigger] st[k]).contains('/') by {
            assert(plain_name(st[k]));
        }
        lemma_split_join(st);
        lemma_pieces_comps_of_plain(st);
        lemma_resolve_normals(st);
        assert(!is_absolute_text(t)) by {
            lemma_join_first(st);
            assert(plain_name(st[0]));
            assert(st[0][0] != '/') by {
                if st[0][0] == '/' {
                    assert(st[0].contains('/'));
                }
            }
        }
    }
}

proof fn lemma_join_first(parts: Seq<Seq<char>>)
    requires
        parts.len() > 0,
        parts[0].len() > 0,
    ensures
        join_with(parts, '/').len() > 0,
        join_with(parts, '/')[0] == parts[0][0],
    decreases parts.len(),
{
    if parts.len() > 1 {
        let d = parts.drop_last();
        assert(d[0] == parts[0]);
        lemma_join_first(d);
    }
}

} // verus!

verus! {

/// The components of the pieces of a path that do not start it: a leading `.`
/// piece gives no component there.
pub open spec fn later_pieces_comps(pieces: Seq<Seq<char>>) -> Seq<Comp> {
    if pieces.len() > 0 && pieces[0] == dot() {
        pieces_comps(pieces).drop_first()
    } else {
        pieces_comps(pieces)
    }
}

proof fn lemma_pieces_comps_lead_dot(b: Seq<Seq<char>>)
    requires
        b.len() > 0,
        b[0] == dot(),
    ensures
        pieces_comps(b).len() > 0,
        pieces_comps(b)[0] == Comp::CurDir,
    decreases b.len(),
{
    if b.len() == 1 {
        assert(b.drop_last() =~= Seq::<Seq<char>>::empty());
        assert(pieces_comps(b.drop_last()) =~= Seq::<Comp>::empty());
        assert(b.last() == dot());
        assert(pieces_comps(b) =~= seq![Comp::CurDir]);
    } else {
        assert(b.drop_last()[0] == b[0]);
        lemma_pieces_comps_lead_dot(b.drop_last());
    }
}

proof fn lemma_piece_comps_index(p: Seq<char>, i: int, j: int)
    requires
        i > 0,
        j > 0,
    ensures
        piece_comps(p, i) == piece_comps(p, j),
{
}

proof fn lemma_pieces_comps_concat(a: Seq<Seq<char>>, b: Seq<Seq<char>>)
    requires
        a.len() > 0,
    ensures
        pieces_comps(a + b) == pieces_comps(a) + later_pieces_comps(b),
    decreases b.len(),
{
    if b.len() == 0 {
        assert(a + b =~= a);
        assert(pieces_comps(b) =~= Seq::<Comp>::empty());
        assert(pieces_comps(a) + later_pieces_comps(b) =~= pieces_comps(a));
    } else {
        let b1 = b.drop_last();
        lemma_pieces_comps_concat(a, b1);
        assert((a + b).drop_last() =~= a + b1);
        assert((a + b).last() == b.last());
        lemma_piece_comps_index(b.last(), (a + b).len() - 1, 1);
        if b1.len() == 0 {
            assert(pieces_comps(b1) =~= Seq::<Comp>::empty());
            assert(later_pieces_comps(b1) =~= Seq::<Comp>::empty());
            assert(b[0] == b.last());
            if b[0] == dot() {
                assert(piece_comps(b.last(), 1) =~= Seq::<Comp>::empty());
                assert(pieces_comps(b) =~= seq![Comp::CurDir]);
                assert(later_pieces_comps(b) =~= Seq::<Comp>::empty());
            } else {
                lemma_piece_comps_index(b.last(), 1, 1);
                assert(pieces_comps(b) =~= piece_comps(b.last(), 0));
                assert(piece_comps(b.last(), 0) == piece_comps(b.last(), 1));
            }
            assert(pieces_comps(a + b) =~= pieces_comps(a) + later_pieces_comps(b));
        } else {
            lemma_piece_comps_index(b.last(), b.len() - 1, 1);
            assert(b1[0] == b[0]);
            if b[0] == dot() {
                lemma_pieces_comps_lead_dot(b1);
                assert(pieces_comps(b1).drop_first() + piece_comps(b.last(), b.len() - 1) =~= (
                pieces_comps(b1) + piece_comps(b.last(), b.len() - 1)).drop_first());
            }
            assert(pieces_comps(a + b) =~= pieces_comps(a) + later_pieces_comps(b));
        }
    }
}

proof fn lemma_resolve_concat(x: Seq<Comp>, y: Seq<Comp>)
    ensures
        resolve_names(x + y) == resolve_names_from(resolve_names(x), y),
    decreases y.len(),
{
    if y.len() == 0 {
        assert(x + y =~= x);
    } else {
        lemma_resolve_concat(x, y.drop_last());
        assert((x + y).drop_last() =~= x + y.drop_last());
        assert((x + y).last() == y.last());
    }
}

/// Resolving the components `cs` on top of the names `st`.
pub open spec fn resolve_names_from(st: Seq<Seq<char>>, cs: Seq<Comp>) -> Seq<Seq<char>>
    decreases cs.len(),
{
    if cs.len() == 0 {
        st
    } else {
        let s = resolve_names_from(st, cs.drop_last());
        match cs.last() {
            Comp::Normal(name) => s.push(name),
            Comp::ParentDir => if s.len() > 0 { s.drop_last() } else { s },
            _ => s,
        }
    }
}

proof fn lemma_later_resolve(pieces: Seq<Seq<char>>)
    ensures
        resolve_names(later_pieces_comps(pieces)) == resolve_names(pieces_comps(pieces)),
{
    if pieces.len() > 0 && pieces[0] == dot() {
        let first = seq![pieces[0]];
        let rest = pieces.drop_first();
        assert(first + rest =~= pieces);
        lemma_pieces_comps_concat(first, rest);
        assert(first.drop_last() =~= Seq::<Seq<char>>::empty());
        assert(pieces_comps(first.drop_last()) =~= Seq::<Comp>::empty());
        assert(pieces_comps(first) =~= seq![Comp::CurDir]);
        let t = later_pieces_comps(rest);
        assert(pieces_comps(pieces) =~= seq![Comp::CurDir] + t);
        assert(later_pieces_comps(pieces) =~= t);
        lemma_resolve_concat(seq![Comp::CurDir], t);
        lemma_resolve_from_empty(t);
        let c = seq![Comp::CurDir];
        assert(c.drop_last() =~= Seq::<Comp>::empty());
        assert(resolve_names(c.drop_last()) =~= Seq::<Seq<char>>::empty());
        assert(c.last() == Comp::CurDir);
        assert(resolve_names(c) =~= Seq::<Seq<char>>::empty());
    }
}

proof fn lemma_resolve_from_empty(cs: Seq<Comp>)
    ensures
        resolve_names_from(Seq::<Seq<char>>::empty(), cs) == resolve_names(cs),
    decreases cs.len(),
{
    if cs.len() > 0 {
        lemma_resolve_from_empty(cs.drop_last());
    }
}

proof fn lemma_join_components(root: Seq<char>, rel: Seq<char>)
    requires
        !is_absolute_text(rel),
    ensures
        strip_comps(components(join_text(root, rel)), components(root)) == Some(
            if root.len() == 0 { components(rel) } else { later_pieces_comps(split_on(rel, '/')) },
        ),
{
    let j = join_text(root, rel);
    if root.len() == 0 {
        assert(j =~= rel);
        assert(components(root) =~= Seq::<Comp>::empty()) by {
            assert(split_on(root, '/') =~= seq![Seq::<char>::empty()]);
            let one = seq![Seq::<char>::empty()];
            assert(one.drop_last() =~= Seq::<Seq<char>>::empty());
            assert(piece_comps(one.last(), 0) =~= Seq::<Comp>::empty());
            assert(pieces_comps(one.drop_last()) =~= Seq::<Comp>::empty());
        }
        assert(components(j).take(0) =~= Seq::<Comp>::empty());
        assert(components(j).skip(0) =~= components(j));
    } else {
        let (a, extra) = if root.last() == '/' {
            (root.drop_last(), true)
        } else {
            (root, false)
        };
        if extra {
            assert(j =~= a + seq!['/'] + rel);
            assert(root =~= a + seq!['/'] + Seq::<char>::empty());
        } else {
            assert(j =~= a + seq!['/'] + rel);
        }
        lemma_split_concat(a, rel, '/');
        lemma_split_nonempty(a, '/');
        lemma_pieces_comps_concat(split_on(a, '/'), split_on(rel, '/'));
        let base_pieces = pieces_comps(split_on(a, '/'));
        if extra {
            lemma_split_concat(a, Seq::<char>::empty(), '/');
            let e = split_on(Seq::<char>::empty(), '/');
            assert(e =~= seq![Seq::<char>::empty()]);
            lemma_pieces_comps_concat(split_on(a, '/'), e);
            assert(e.drop_last() =~= Seq::<Seq<char>>::empty());
            assert(pieces_comps(e.drop_last()) =~= Seq::<Comp>::empty());
            assert(piece_comps(e.last(), 0) =~= Seq::<Comp>::empty());
            assert(later_pieces_comps(e) =~= Seq::<Comp>::empty());
        }
        assert(pieces_comps(split_on(root, '/')) =~= base_pieces);
        assert(j[0] == root[0]);
        let pre = if is_absolute_text(root) { seq![Comp::RootDir] } else { Seq::<Comp>::empty() };
        let t = later_pieces_comps(split_on(rel, '/'));
        assert(components(root) =~= pre + base_pieces);
        assert(components(j) =~= pre + base_pieces + t);
        assert(components(j).take((pre + base_pieces).len() as int) =~= pre + base_pieces);
        assert(components(j).skip((pre + base_pieces).len() as int) =~= t);
    }
}

/// A path relative to the project root, and that path joined onto the root,
/// come out as the same normalised project-relative path.
/// Joining `b` then `c` onto `a` is joining `b` joined with `c` onto `a`, when
/// neither `b` nor `c` is absolute.
pub proof fn join_text_assoc(a: Seq<char>, b: Seq<char>, c: Seq<char>)
    requires
        !is_absolute_text(b),
        !is_absolute_text(c),
    ensures
        join_text(join_text(a, b), c) == join_text(a, join_text(b, c)),
        !is_absolute_text(join_text(b, c)),
{
    let bc = join_text(b, c);
    if b.len() > 0 {
        assert(bc[0] == b[0]);
    }
    if a.len() == 0 {
        assert(join_text(a, b) =~= b);
        assert(join_text(a, bc) =~= bc);
    } else if b.len() == 0 {
        assert(bc =~= c);
        if a.last() == '/' {
            assert(join_text(a, b) =~= a);
        } else {
            assert(join_text(a, b) =~= a + seq!['/']);
            assert(join_text(a, b).last() == '/');
            assert(join_text(join_text(a, b), c) =~= a + seq!['/'] + c);
        }
    } else {
        let ab = join_text(a, b);
        assert(ab.last() == b.last());
        if b.last() == '/' {
            assert(join_text(ab, c) =~= join_text(a, bc));
        } else {
            assert(join_text(ab, c) =~= join_text(a, bc));
        }
    }
}

pub proof fn relative_under_join(root: Seq<char>, rel: Seq<char>)
    requires
        !is_absolute_text(rel),
    ensures
        crate::index::relative_under(join_text(root, rel), root) == Some(normalized(rel)),
{
    lemma_join_components(root, rel);
    lemma_later_resolve(split_on(rel, '/'));
}

} // verus!
