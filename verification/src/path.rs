//! Unix path components, as `std::path::Path::components` yields them for
//! a path given as text, and the component-wise prefix test of
//! `Path::starts_with`.

use vstd::prelude::*;
use crate::text::{copy_range, find};

verus! {

/// One component of a path.
pub enum Component {
    /// The leading `/`.
    RootDir,
    /// A leading `.` segment.
    CurDir,
    /// A `..` segment.
    ParentDir,
    /// Any other non-empty segment.
    Normal(Seq<char>),
}

/// The parts of `s` between `/` separators, empty parts included.
pub open spec fn segments(s: Seq<char>) -> Seq<Seq<char>>
    decreases s.len(),
{
    match find(s, seq!['/']) {
        Some(i) => if 0 <= i < s.len() {
            seq![s.take(i)] + segments(s.skip(i + 1))
        } else {
            seq![s]
        },
        None => seq![s],
    }
}

/// The components named by the segments: empty and `.` segments name none,
/// `..` names `ParentDir`, any other segment a `Normal` component.
pub open spec fn body_components(segs: Seq<Seq<char>>) -> Seq<Component>
    decreases segs.len(),
{
    if segs.len() == 0 {
        seq![]
    } else {
        let seg = segs[0];
        let rest = body_components(segs.drop_first());
        if seg.len() == 0 || seg == seq!['.'] {
            rest
        } else if seg == seq!['.', '.'] {
            seq![Component::ParentDir] + rest
        } else {
            seq![Component::Normal(seg)] + rest
        }
    }
}

/// The component that the start of `s` names before its segments: `/` for
/// an absolute path, `.` for a path that is `.` or starts with `./`.
pub open spec fn leading_components(s: Seq<char>) -> Seq<Component> {
    if s.len() > 0 && s[0] == '/' {
        seq![Component::RootDir]
    } else if s == seq!['.'] || (s.len() >= 2 && s[0] == '.' && s[1] == '/') {
        seq![Component::CurDir]
    } else {
        seq![]
    }
}

/// The components of the path `s`.
pub open spec fn components(s: Seq<char>) -> Seq<Component> {
    leading_components(s) + body_components(segments(s))
}

/// The path `p` starts with the path `base`, component by component.
pub open spec fn path_starts_with(p: Seq<char>, base: Seq<char>) -> bool {
    components(base).is_prefix_of(components(p))
}

/// The path `s` has a `..` component.
pub open spec fn has_parent_dir(s: Seq<char>) -> bool {
    components(s).contains(Component::ParentDir)
}

/// One path component.
pub enum PathComponent {
    RootDir,
    CurDir,
    ParentDir,
    Normal(Vec<char>),
}

impl View for PathComponent {
    type V = Component;

    open spec fn view(&self) -> Component {
        match self {
            PathComponent::RootDir => Component::RootDir,
            PathComponent::CurDir => Component::CurDir,
            PathComponent::ParentDir => Component::ParentDir,
            PathComponent::Normal(v) => Component::Normal(v@),
        }
    }
}

/// The view of a vector of components.
pub open spec fn comps_view(v: Seq<PathComponent>) -> Seq<Component> {
    v.map_values(|c: PathComponent| c@)
}

fn segments_exec(s: &Vec<char>) -> (r: Vec<Vec<char>>)
    ensures
        r@.map_values(|w: Vec<char>| w@) == segments(s@),
{
    let mut r: Vec<Vec<char>> = Vec::new();
    let mut start: usize = 0;
    let mut i: usize = 0;
    assert(s@.skip(0) == s@);
    while i < s.len()
        invariant
            start <= i <= s.len(),
            forall|k: int| start <= k < i ==> s@[k] != '/',
            r@.map_values(|w: Vec<char>| w@) + segments(s@.skip(start as int)) == segments(s@),
        decreases s.len() - i,
    {
        if s[i] == '/' {
            let seg = copy_range(s, start, i);
            let ghost rest = s@.skip(start as int);
            proof {
                let slash = seq!['/'];
                crate::text::lemma_find(rest, slash);
                let j = (i - start) as int;
                assert(rest.subrange(j, j + 1) == slash);
                assert(crate::text::occurs_at(rest, slash, j));
                assert forall|k: int| 0 <= k < j implies !crate::text::occurs_at(rest, slash, k) by {
                    assert(rest.subrange(k, k + 1)[0] == rest[k]);
                }
                assert(find(rest, slash) == Some(j));
                assert(rest.take(j) == seg@);
                assert(rest.skip(j + 1) == s@.skip(i + 1));
            }
            let ghost before = r@.map_values(|w: Vec<char>| w@);
            r.push(seg);
            assert(r@.map_values(|w: Vec<char>| w@) == before.push(seg@));
            assert(before.push(seg@) + segments(s@.skip(i + 1)) == before + (seq![seg@] + segments(
                s@.skip(i + 1),
            )));
            i = i + 1;
            start = i;
        } else {
            i = i + 1;
        }
    }
    let last = copy_range(s, start, s.len());
    proof {
        let rest = s@.skip(start as int);
        let slash = seq!['/'];
        crate::text::lemma_find(rest, slash);
        assert(!crate::text::contains_seq(rest, slash)) by {
            if crate::text::contains_seq(rest, slash) {
                let k = choose|k: int| crate::text::occurs_at(rest, slash, k);
                assert(rest.subrange(k, k + 1)[0] == rest[k]);
                assert(s@[start + k] == '/');
            }
        }
        assert(last@ == rest);
    }
    let ghost before = r@.map_values(|w: Vec<char>| w@);
    r.push(last);
    assert(r@.map_values(|w: Vec<char>| w@) == before.push(last@));
    assert(before + seq![last@] == before.push(last@));
    r
}

/// The components of the path `s`, as `Path::components` yields them.
pub fn path_components(s: &Vec<char>) -> (r: Vec<PathComponent>)
    ensures
        comps_view(r@) == components(s@),
{
    let mut r: Vec<PathComponent> = Vec::new();
    if s.len() > 0 && s[0] == '/' {
        r.push(PathComponent::RootDir);
    } else if (s.len() == 1 && s[0] == '.') || (s.len() >= 2 && s[0] == '.' && s[1] == '/') {
        assert(s.len() == 1 ==> s@ == seq!['.']);
        r.push(PathComponent::CurDir);
    } else {
        assert(s@ != seq!['.']);
    }
    assert(comps_view(r@) == leading_components(s@));
    let segs = segments_exec(s);
    let ghost sv = segs@.map_values(|w: Vec<char>| w@);
    let mut i: usize = 0;
    assert(sv.skip(0) == sv);
    while i < segs.len()
        invariant
            i <= segs.len(),
            sv == segs@.map_values(|w: Vec<char>| w@),
            sv == segments(s@),
            comps_view(r@) + body_components(sv.skip(i as int)) == components(s@),
        decreases segs.len() - i,
    {
        let seg = &segs[i];
        let ghost rest = sv.skip(i as int);
        assert(rest[0] == seg@);
        assert(rest.drop_first() == sv.skip(i + 1));
        let ghost before = comps_view(r@);
        if seg.len() == 0 || (seg.len() == 1 && seg[0] == '.') {
            assert(seg.len() == 1 ==> seg@ == seq!['.']);
        } else if seg.len() == 2 && seg[0] == '.' && seg[1] == '.' {
            assert(seg@ == seq!['.', '.']);
            r.push(PathComponent::ParentDir);
            assert(comps_view(r@) == before.push(Component::ParentDir));
            assert(before.push(Component::ParentDir) + body_components(sv.skip(i + 1)) == before
                + (seq![Component::ParentDir] + body_components(sv.skip(i + 1))));
        } else {
            assert(seg@ != seq!['.']);
            assert(seg@ != seq!['.', '.']);
            let c = copy_range(seg, 0, seg.len());
            assert(c@ == seg@);
            r.push(PathComponent::Normal(c));
            assert(comps_view(r@) == before.push(Component::Normal(seg@)));
            assert(before.push(Component::Normal(seg@)) + body_components(sv.skip(i + 1))
                == before + (seq![Component::Normal(seg@)] + body_components(sv.skip(i + 1))));
        }
        i = i + 1;
    }
    assert(body_components(sv.skip(i as int)) == Seq::<Component>::empty());
    assert(comps_view(r@) + Seq::<Component>::empty() == comps_view(r@));
    r
}

fn component_eq(a: &PathComponent, b: &PathComponent) -> (r: bool)
    ensures
        r == (a@ == b@),
{
    match (a, b) {
        (PathComponent::RootDir, PathComponent::RootDir) => true,
        (PathComponent::CurDir, PathComponent::CurDir) => true,
        (PathComponent::ParentDir, PathComponent::ParentDir) => true,
        (PathComponent::Normal(x), PathComponent::Normal(y)) => {
            if x.len() != y.len() {
                return false;
            }
            let mut i: usize = 0;
            while i < x.len()
                invariant
                    a@ == Component::Normal(x@),
                    b@ == Component::Normal(y@),
                    x.len() == y.len(),
                    i <= x.len(),
                    forall|k: int| 0 <= k < i ==> x@[k] == y@[k],
                decreases x.len() - i,
            {
                if x[i] != y[i] {
                    assert(x@[i as int] != y@[i as int]);
                    return false;
                }
                i = i + 1;
            }
            assert(x@ == y@);
            true
        },
        _ => false,
    }
}

/// Whether the path `p` starts with the path `base`, component by component.
pub fn starts_with(p: &Vec<char>, base: &Vec<char>) -> (r: bool)
    ensures
        r == path_starts_with(p@, base@),
{
    let pc = path_components(p);
    let bc = path_components(base);
    if bc.len() > pc.len() {
        return false;
    }
    let mut i: usize = 0;
    while i < bc.len()
        invariant
            comps_view(pc@) == components(p@),
            comps_view(bc@) == components(base@),
            bc.len() <= pc.len(),
            i <= bc.len(),
            forall|k: int| 0 <= k < i ==> comps_view(bc@)[k] == comps_view(pc@)[k],
        decreases bc.len() - i,
    {
        if !component_eq(&bc[i], &pc[i]) {
            assert(comps_view(bc@)[i as int] != comps_view(pc@)[i as int]);
            assert(comps_view(pc@).subrange(0, bc.len() as int)[i as int] != comps_view(bc@)[i as int]);
            return false;
        }
        i = i + 1;
    }
    assert(comps_view(bc@) =~= comps_view(pc@).subrange(0, bc.len() as int));
    true
}

/// Whether the path `s` has a `..` component.
pub fn has_parent_dir_exec(s: &Vec<char>) -> (r: bool)
    ensures
        r == has_parent_dir(s@),
{
    let cs = path_components(s);
    let mut i: usize = 0;
    while i < cs.len()
        invariant
            comps_view(cs@) == components(s@),
            i <= cs.len(),
            forall|k: int| 0 <= k < i ==> comps_view(cs@)[k] != Component::ParentDir,
        decreases cs.len() - i,
    {
        if let PathComponent::ParentDir = cs[i] {
            assert(comps_view(cs@)[i as int] == Component::ParentDir);
            assert(comps_view(cs@).contains(Component::ParentDir));
            return true;
        }
        i = i + 1;
    }
    assert(!comps_view(cs@).contains(Component::ParentDir));
    false
}

/// Every path starts with itself, so a path that resolves to the root is
/// within the root; and starting-with is transitive, so a path within a
/// directory that lies within the root is within the root.
pub proof fn lemma_starts_with_order(a: Seq<char>, b: Seq<char>, c: Seq<char>)
    ensures
        path_starts_with(a, a),
        path_starts_with(a, b) && path_starts_with(b, c) ==> path_starts_with(a, c),
{
    assert(components(a).subrange(0, components(a).len() as int) =~= components(a));
    if path_starts_with(a, b) && path_starts_with(b, c) {
        let ca = components(a);
        let cb = components(b);
        let cc = components(c);
        assert forall|i: int| 0 <= i < cc.len() implies cc[i] == ca.subrange(0, cc.len() as int)[i] by {
            assert(cc[i] == cb.subrange(0, cc.len() as int)[i]);
            assert(cb[i] == ca.subrange(0, cb.len() as int)[i]);
        }
        assert(cc =~= ca.subrange(0, cc.len() as int));
    }
}

} // verus!
