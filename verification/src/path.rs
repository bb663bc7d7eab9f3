//! Paths inside the virtual file system, held as sequences of byte-string components
//! (the normal components of an absolute path; the root is the empty sequence), and
//! the byte strings that are built from them.

use vstd::prelude::*;

verus! {

/// The separator byte of Unix paths.
pub const SEP: u8 = 0x2f;

/// The view of a path: its components as byte sequences.
pub open spec fn pview(p: &Vec<Vec<u8>>) -> Seq<Seq<u8>> {
    p@.map_values(|c: Vec<u8>| c@)
}

/// `pre` is a leading part of `s`, component by component.
pub open spec fn is_prefix(pre: Seq<Seq<u8>>, s: Seq<Seq<u8>>) -> bool {
    pre.len() <= s.len() && s.subrange(0, pre.len() as int) == pre
}

/// The components joined by single separators, without a leading one.
pub open spec fn join_components(s: Seq<Seq<u8>>) -> Seq<u8>
    decreases s.len(),
{
    if s.len() == 0 {
        Seq::empty()
    } else if s.len() == 1 {
        s[0]
    } else {
        join_components(s.drop_last()) + seq![SEP] + s.last()
    }
}

/// How a relative or absolute path is adjoined to a base path on Unix: an absolute
/// `rel` replaces the base; otherwise one separator is put between them unless the
/// base is empty or already ends in one.
pub open spec fn host_join(base: Seq<u8>, rel: Seq<u8>) -> Seq<u8> {
    if rel.len() > 0 && rel[0] == SEP {
        rel
    } else if base.len() == 0 || base.last() == SEP {
        base + rel
    } else {
        base + seq![SEP] + rel
    }
}

/// Two names are the same byte string.
pub fn names_eq(a: &Vec<u8>, b: &Vec<u8>) -> (r: bool)
    ensures
        r == (a@ == b@),
{
    if a.len() != b.len() {
        return false;
    }
    let mut i: usize = 0;
    while i < a.len()
        invariant
            a.len() == b.len(),
            i <= a.len(),
            forall|k: int| 0 <= k < i ==> a@[k] == b@[k],
        decreases a.len() - i,
    {
        if a[i] != b[i] {
            return false;
        }
        i = i + 1;
    }
    assert(a@ =~= b@);
    true
}

/// Two paths have the same components.
pub fn paths_eq(a: &Vec<Vec<u8>>, b: &Vec<Vec<u8>>) -> (r: bool)
    ensures
        r == (pview(a) == pview(b)),
{
    if a.len() != b.len() {
        assert(pview(a).len() != pview(b).len());
        return false;
    }
    let mut i: usize = 0;
    while i < a.len()
        invariant
            a.len() == b.len(),
            i <= a.len(),
            forall|k: int| 0 <= k < i ==> pview(a)[k] == pview(b)[k],
        decreases a.len() - i,
    {
        if !names_eq(&a[i], &b[i]) {
            assert(pview(a)[i as int] != pview(b)[i as int]);
            return false;
        }
        i = i + 1;
    }
    assert(pview(a) =~= pview(b));
    true
}

/// A copy of a name.
pub fn clone_name(n: &Vec<u8>) -> (r: Vec<u8>)
    ensures
        r@ == n@,
{
    n.clone()
}

/// A copy of a path.
pub fn clone_path(p: &Vec<Vec<u8>>) -> (r: Vec<Vec<u8>>)
    ensures
        pview(&r) == pview(p),
{
    let mut r: Vec<Vec<u8>> = Vec::new();
    let mut k: usize = 0;
    while k < p.len()
        invariant
            k <= p.len(),
            pview(&r) =~= pview(p).subrange(0, k as int),
        decreases p.len() - k,
    {
        let ghost before = r@;
        let c = clone_name(&p[k]);
        r.push(c);
        assert(r@ == before.push(c));
        assert(c@ == pview(p)[k as int]);
        assert(pview(&r) =~= pview(p).subrange(0, k as int).push(c@));
        assert(pview(p).subrange(0, k + 1) =~= pview(p).subrange(0, k as int).push(c@));
        k = k + 1;
    }
    assert(pview(p).subrange(0, p.len() as int) =~= pview(p));
    r
}

/// `p` with the component `name` appended.
pub fn child_path(p: &Vec<Vec<u8>>, name: &Vec<u8>) -> (r: Vec<Vec<u8>>)
    ensures
        pview(&r) == pview(p).push(name@),
{
    let mut r = clone_path(p);
    let c = clone_name(name);
    r.push(c);
    assert(pview(&r) =~= pview(p).push(name@));
    r
}

/// Strips `prefix` from the front of `path`, as `Path::strip_prefix` does on whole
/// components; `None` when `prefix` does not lead `path`.
pub fn strip_prefix(path: &Vec<Vec<u8>>, prefix: &Vec<Vec<u8>>) -> (r: Option<Vec<Vec<u8>>>)
    ensures
        match r {
            Some(rest) => is_prefix(pview(prefix), pview(path)) && pview(&rest) == pview(
                path,
            ).skip(prefix.len() as int),
            None => !is_prefix(pview(prefix), pview(path)),
        },
{
    if prefix.len() > path.len() {
        return None;
    }
    let mut i: usize = 0;
    while i < prefix.len()
        invariant
            prefix.len() <= path.len(),
            i <= prefix.len(),
            forall|j: int| 0 <= j < i ==> pview(path)[j] == pview(prefix)[j],
        decreases prefix.len() - i,
    {
        if !names_eq(&path[i], &prefix[i]) {
            assert(pview(path).subrange(0, prefix.len() as int)[i as int] != pview(prefix)[i as int]);
            return None;
        }
        i = i + 1;
    }
    assert(pview(path).subrange(0, prefix.len() as int) =~= pview(prefix));
    let mut rest: Vec<Vec<u8>> = Vec::new();
    let mut k: usize = prefix.len();
    while k < path.len()
        invariant
            prefix.len() <= k <= path.len(),
            pview(&rest) =~= pview(path).subrange(prefix.len() as int, k as int),
        decreases path.len() - k,
    {
        let ghost before = rest@;
        let c = clone_name(&path[k]);
        rest.push(c);
        assert(rest@ == before.push(c));
        assert(c@ == pview(path)[k as int]);
        assert(pview(&rest) =~= pview(path).subrange(prefix.len() as int, k as int).push(c@));
        assert(pview(path).subrange(prefix.len() as int, k + 1) =~= pview(path).subrange(
            prefix.len() as int,
            k as int,
        ).push(c@));
        k = k + 1;
    }
    Some(rest)
}

/// Appends the bytes of `src` to `dst`.
fn append_bytes(dst: &mut Vec<u8>, src: &Vec<u8>)
    ensures
        final(dst)@ == old(dst)@ + src@,
{
    let mut i: usize = 0;
    while i < src.len()
        invariant
            i <= src.len(),
            dst@ == old(dst)@ + src@.subrange(0, i as int),
        decreases src.len() - i,
    {
        dst.push(src[i]);
        i = i + 1;
        assert(src@.subrange(0, i as int) =~= src@.subrange(0, i - 1) + seq![src@[i - 1]]);
    }
    assert(src@.subrange(0, src.len() as int) =~= src@);
}

/// Appends the components of `path` to `dst`, joined by separators.
fn append_joined(dst: &mut Vec<u8>, path: &Vec<Vec<u8>>)
    ensures
        final(dst)@ == old(dst)@ + join_components(pview(path)),
{
    let mut i: usize = 0;
    while i < path.len()
        invariant
            i <= path.len(),
            dst@ == old(dst)@ + join_components(pview(path).subrange(0, i as int)),
        decreases path.len() - i,
    {
        let ghost before = dst@;
        if i > 0 {
            dst.push(SEP);
        }
        append_bytes(dst, &path[i]);
        proof {
            let s = pview(path).subrange(0, i + 1);
            assert(s.drop_last() =~= pview(path).subrange(0, i as int));
            assert(s.last() == path[i as int]@);
            if i == 0 {
                assert(join_components(pview(path).subrange(0, 0)) =~= Seq::<u8>::empty());
                assert(s.len() == 1);
                assert(dst@ =~= old(dst)@ + join_components(s));
            } else {
                assert(dst@ =~= old(dst)@ + join_components(s));
            }
        }
        i = i + 1;
    }
    assert(pview(path).subrange(0, path.len() as int) =~= pview(path));
}

/// The components of `path` joined by separators, with a terminating NUL byte: the
/// path relative to the root of a mounted directory, as `openat` takes it.
pub fn relative_c_path(path: &Vec<Vec<u8>>) -> (r: Vec<u8>)
    ensures
        r@ == join_components(pview(path)).push(0u8),
{
    let mut r: Vec<u8> = Vec::new();
    append_joined(&mut r, path);
    r.push(0u8);
    r
}

/// `base`, a separator, then the components of `dir` joined by separators, and a
/// terminating NUL byte: the host path of a directory below the directory `base`.
pub fn dir_c_path(base: &Vec<u8>, dir: &Vec<Vec<u8>>) -> (r: Vec<u8>)
    ensures
        r@ == (base@ + seq![SEP] + join_components(pview(dir))).push(0u8),
{
    let mut r: Vec<u8> = Vec::new();
    append_bytes(&mut r, base);
    r.push(SEP);
    append_joined(&mut r, dir);
    r.push(0u8);
    r
}

/// The host path of `path` below the host directory `base`: `base` adjoined with the
/// components of `path`, as `Path::join` adjoins a relative path.
pub fn host_path(base: &Vec<u8>, path: &Vec<Vec<u8>>) -> (r: Vec<u8>)
    ensures
        r@ == host_join(base@, join_components(pview(path))),
{
    let mut rel: Vec<u8> = Vec::new();
    append_joined(&mut rel, path);
    assert(rel@ =~= join_components(pview(path)));
    if rel.len() > 0 && rel[0] == SEP {
        return rel;
    }
    let mut r: Vec<u8> = Vec::new();
    append_bytes(&mut r, base);
    if base.len() > 0 && base[base.len() - 1] != SEP {
        r.push(SEP);
    }
    append_bytes(&mut r, &rel);
    r
}

} // verus!
