//! Where the built front end lives, and the paths below it.
use vstd::prelude::*;
use crate::route::{
    byte_strings, lemma_asset_route_confined, route_of, safe_component, RouteView, SLASH,
};

verus! {

/// The directory where the hosting platform stages the build, `/build_assets/dist`.
pub open spec fn platform_dir() -> Seq<u8> {
    seq![0x2fu8, 0x62u8, 0x75u8, 0x69u8, 0x6cu8, 0x64u8, 0x5fu8, 0x61u8, 0x73u8, 0x73u8, 0x65u8, 0x74u8, 0x73u8, 0x2fu8, 0x64u8, 0x69u8, 0x73u8, 0x74u8]
}

/// The name of the build directory, `dist`.
pub open spec fn dist_name() -> Seq<u8> {
    seq![0x64u8, 0x69u8, 0x73u8, 0x74u8]
}

/// The name of the entry document, `index.html`.
pub open spec fn index_name() -> Seq<u8> {
    seq![0x69u8, 0x6eu8, 0x64u8, 0x65u8, 0x78u8, 0x2eu8, 0x68u8, 0x74u8, 0x6du8, 0x6cu8]
}

/// The name of the asset directory, `assets`.
pub open spec fn assets_name() -> Seq<u8> {
    seq![0x61u8, 0x73u8, 0x73u8, 0x65u8, 0x74u8, 0x73u8]
}

/// `name` joined below `base` as a path: an absolute `name` replaces
/// `base`; otherwise one `/` separates them unless `base` is empty or
/// already ends with one.
pub open spec fn joined(base: Seq<u8>, name: Seq<u8>) -> Seq<u8> {
    if name.len() > 0 && name[0] == SLASH {
        name
    } else if base.len() == 0 || base.last() == SLASH {
        base + name
    } else {
        base.push(SLASH) + name
    }
}

/// The base directory: the platform's directory when hosted; otherwise
/// `dist` below the working directory, or `dist` alone where the working
/// directory is unknown.
pub open spec fn base_directory(hosted: bool, cwd: Option<Seq<u8>>) -> Seq<u8> {
    if hosted {
        platform_dir()
    } else {
        match cwd {
            Some(dir) => joined(dir, dist_name()),
            None => dist_name(),
        }
    }
}

/// The bytes held by an optional byte vector.
pub open spec fn optional_bytes(o: Option<Vec<u8>>) -> Option<Seq<u8>> {
    match o {
        Some(v) => Some(v@),
        None => None,
    }
}

/// Appends the bytes of `src` to `out`.
pub fn append_bytes(out: &mut Vec<u8>, src: &[u8])
    ensures
        final(out)@ == old(out)@ + src@,
{
    let mut i: usize = 0;
    while i < src.len()
        invariant
            i <= src@.len(),
            out@ == old(out)@ + src@.take(i as int),
        decreases src@.len() - i,
    {
        out.push(src[i]);
        assert(src@.take(i + 1) =~= src@.take(i as int).push(src@[i as int]));
        i = i + 1;
    }
    assert(src@.take(i as int) =~= src@);
}

/// Joins `name` below `base`, as `joined` says.
pub fn join_path(base: &[u8], name: &[u8]) -> (r: Vec<u8>)
    ensures
        r@ == joined(base@, name@),
{
    let mut out: Vec<u8> = Vec::new();
    if name.len() > 0 && name[0] == SLASH {
        append_bytes(&mut out, name);
        assert(out@ =~= name@);
        return out;
    }
    append_bytes(&mut out, base);
    if base.len() > 0 && base[base.len() - 1] != SLASH {
        out.push(SLASH);
    }
    append_bytes(&mut out, name);
    assert(out@ =~= joined(base@, name@));
    out
}

/// Resolves the base directory of the build from whether the process runs
/// on the hosting platform and, if known, its working directory.
pub fn resolve_base_directory(hosted: bool, cwd: Option<Vec<u8>>) -> (r: Vec<u8>)
    ensures
        r@ == base_directory(hosted, optional_bytes(cwd)),
{
    if hosted {
        let dir: Vec<u8> = vec![0x2f, 0x62, 0x75, 0x69, 0x6c, 0x64, 0x5f, 0x61, 0x73, 0x73, 0x65, 0x74, 0x73, 0x2f, 0x64, 0x69, 0x73, 0x74];
        assert(dir@ =~= platform_dir());
        return dir;
    }
    let dist: Vec<u8> = vec![0x64, 0x69, 0x73, 0x74];
    assert(dist@ =~= dist_name());
    match cwd {
        Some(dir) => join_path(dir.as_slice(), dist.as_slice()),
        None => dist,
    }
}

/// The path of the entry document below `base`.
pub fn index_path(base: &[u8]) -> (r: Vec<u8>)
    ensures
        r@ == joined(base@, index_name()),
{
    let name: Vec<u8> = vec![0x69, 0x6e, 0x64, 0x65, 0x78, 0x2e, 0x68, 0x74, 0x6d, 0x6c];
    assert(name@ =~= index_name());
    join_path(base, name.as_slice())
}

/// The path of the asset directory below `base`.
pub fn assets_dir(base: &[u8]) -> (r: Vec<u8>)
    ensures
        r@ == joined(base@, assets_name()),
{
    let name: Vec<u8> = vec![0x61, 0x73, 0x73, 0x65, 0x74, 0x73];
    assert(name@ =~= assets_name());
    join_path(base, name.as_slice())
}

/// `names` joined below `base` one after the other.
pub open spec fn joined_all(base: Seq<u8>, names: Seq<Seq<u8>>) -> Seq<u8>
    decreases names.len(),
{
    if names.len() == 0 {
        base
    } else {
        joined(joined_all(base, names.drop_last()), names.last())
    }
}

/// The path of the asset file that `components` name below the asset
/// directory `dir`.
pub fn asset_file_path(dir: &[u8], components: &Vec<Vec<u8>>) -> (r: Vec<u8>)
    ensures
        r@ == joined_all(dir@, byte_strings(components@)),
{
    let mut path: Vec<u8> = Vec::new();
    append_bytes(&mut path, dir);
    assert(path@ =~= dir@);
    let mut i: usize = 0;
    assert(byte_strings(components@).take(0) =~= Seq::<Seq<u8>>::empty());
    while i < components.len()
        invariant
            i <= components@.len(),
            path@ == joined_all(dir@, byte_strings(components@).take(i as int)),
        decreases components@.len() - i,
    {
        path = join_path(path.as_slice(), components[i].as_slice());
        assert(byte_strings(components@).take(i + 1).drop_last() =~= byte_strings(components@).take(
            i as int,
        ));
        i = i + 1;
    }
    assert(byte_strings(components@).take(i as int) =~= byte_strings(components@));
    path
}

/// Joining names that do not start with `/` below `base` gives a path that
/// starts with `base`.
pub proof fn lemma_joined_all_below(base: Seq<u8>, names: Seq<Seq<u8>>)
    requires
        forall|j: int| 0 <= j < names.len() ==> (#[trigger] names[j]).len() > 0 && names[j][0] != SLASH,
    ensures
        joined_all(base, names).len() >= base.len(),
        joined_all(base, names).take(base.len() as int) == base,
    decreases names.len(),
{
    if names.len() > 0 {
        let prev = names.drop_last();
        assert forall|j: int| 0 <= j < prev.len() implies (#[trigger] prev[j]).len() > 0 && prev[j][0] != SLASH by {
            assert(prev[j] == names[j]);
        }
        lemma_joined_all_below(base, prev);
        let p = joined_all(base, prev);
        let name = names.last();
        assert(names[names.len() - 1][0] != SLASH);
        if p.len() == 0 || p.last() == SLASH {
            assert((p + name).take(base.len() as int) =~= p.take(base.len() as int));
        } else {
            assert((p.push(SLASH) + name).take(base.len() as int) =~= p.take(base.len() as int));
        }
    }
}

/// The file that an asset request is served from lies below the asset
/// directory: its path starts with the directory, and each component added
/// to it is safe (not empty, `.` or `..`, and without `/`).
pub proof fn lemma_asset_file_confined(p: Seq<u8>, dir: Seq<u8>)
    ensures
        route_of(p) matches RouteView::Asset(c) ==> {
            &&& forall|j: int| 0 <= j < c.len() ==> safe_component(#[trigger] c[j])
            &&& joined_all(dir, c).len() >= dir.len()
            &&& joined_all(dir, c).take(dir.len() as int) == dir
        },
{
    lemma_asset_route_confined(p);
    if let RouteView::Asset(c) = route_of(p) {
        assert forall|j: int| 0 <= j < c.len() implies (#[trigger] c[j]).len() > 0 && c[j][0] != SLASH by {
            assert(safe_component(c[j]));
        }
        lemma_joined_all_below(dir, c);
    }
}

/// With the hosting flag set the base directory is the platform's fixed
/// directory, whatever the working directory; without it, it is `dist`
/// below the working directory.
pub proof fn lemma_environment_selection(cwd: Option<Seq<u8>>, dir: Seq<u8>)
    ensures
        base_directory(true, cwd) == platform_dir(),
        base_directory(false, Some(dir)) == joined(dir, dist_name()),
        base_directory(false, None) == dist_name(),
{
}

} // verus!
