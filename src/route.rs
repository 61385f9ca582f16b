//! The routing policy: which request paths belong to the asset namespace,
//! and which file components such a request may name.
use vstd::prelude::*;
use crate::percent::{percent_decode, percent_decoded};

verus! {

pub const SLASH: u8 = 0x2f;

pub const DOT: u8 = 0x2e;

/// The mount point of the asset namespace, `/assets`.
pub open spec fn asset_mount() -> Seq<u8> {
    seq![SLASH, 0x61u8, 0x73u8, 0x73u8, 0x65u8, 0x74u8, 0x73u8]
}

/// Length of `asset_mount()`.
pub const MOUNT_LEN: usize = 7;

/// A path is in the asset namespace when it is `/assets` or starts with `/assets/`.
pub open spec fn in_asset_namespace(p: Seq<u8>) -> bool {
    &&& p.len() >= MOUNT_LEN
    &&& p.take(MOUNT_LEN as int) == asset_mount()
    &&& (p.len() == MOUNT_LEN || p[MOUNT_LEN as int] == SLASH)
}

pub open spec fn without_leading_slashes(s: Seq<u8>) -> Seq<u8>
    decreases s.len(),
{
    if s.len() > 0 && s[0] == SLASH {
        without_leading_slashes(s.skip(1))
    } else {
        s
    }
}

/// The bytes after the last `/` of `s` (all of `s` if it holds none).
pub open spec fn last_piece(s: Seq<u8>) -> Seq<u8>
    decreases s.len(),
{
    if s.len() == 0 {
        Seq::empty()
    } else if s.last() == SLASH {
        Seq::empty()
    } else {
        last_piece(s.drop_last()).push(s.last())
    }
}

/// The pieces of `s` that a `/` ends, in order.
pub open spec fn closed_pieces(s: Seq<u8>) -> Seq<Seq<u8>>
    decreases s.len(),
{
    if s.len() == 0 {
        Seq::empty()
    } else if s.last() == SLASH {
        closed_pieces(s.drop_last()).push(last_piece(s.drop_last()))
    } else {
        closed_pieces(s.drop_last())
    }
}

/// `s` split at every `/`; empty pieces are kept.
pub open spec fn split_on_slash(s: Seq<u8>) -> Seq<Seq<u8>> {
    closed_pieces(s).push(last_piece(s))
}

pub open spec fn current_dir_name() -> Seq<u8> {
    seq![DOT]
}

pub open spec fn parent_dir_name() -> Seq<u8> {
    seq![DOT, DOT]
}

/// The file components that a list of pieces names: empty and `.` pieces
/// are dropped; any `..` piece makes the whole list unusable (`None`).
pub open spec fn file_components(pieces: Seq<Seq<u8>>) -> Option<Seq<Seq<u8>>>
    decreases pieces.len(),
{
    if pieces.len() == 0 {
        Some(Seq::empty())
    } else {
        match file_components(pieces.drop_last()) {
            None => None,
            Some(kept) => {
                let piece = pieces.last();
                if piece == parent_dir_name() {
                    None
                } else if piece.len() == 0 || piece == current_dir_name() {
                    Some(kept)
                } else {
                    Some(kept.push(piece))
                }
            },
        }
    }
}

/// Where a request goes.
pub enum Route {
    /// Served from the asset directory: the file components below it, in order.
    Asset(Vec<Vec<u8>>),
    /// In the asset namespace, but names nothing that may be served.
    NotFound,
    /// Any path outside the asset namespace: answered with the entry document.
    Entry,
}

pub ghost enum RouteView {
    Asset(Seq<Seq<u8>>),
    NotFound,
    Entry,
}

/// The byte strings held by a list of byte vectors.
pub open spec fn byte_strings(v: Seq<Vec<u8>>) -> Seq<Seq<u8>> {
    v.map_values(|x: Vec<u8>| x@)
}

impl View for Route {
    type V = RouteView;

    open spec fn view(&self) -> RouteView {
        match self {
            Route::Asset(c) => RouteView::Asset(byte_strings(c@)),
            Route::NotFound => RouteView::NotFound,
            Route::Entry => RouteView::Entry,
        }
    }
}

/// The route of an asset request, from what follows the mount point.
pub open spec fn asset_route(rest: Seq<u8>) -> RouteView {
    let decoded = percent_decoded(without_leading_slashes(rest));
    if decoded.len() > 0 && decoded[0] == SLASH {
        RouteView::NotFound
    } else {
        match file_components(split_on_slash(decoded)) {
            Some(c) if c.len() > 0 => RouteView::Asset(c),
            _ => RouteView::NotFound,
        }
    }
}

/// The route of a request path.
pub open spec fn route_of(p: Seq<u8>) -> RouteView {
    if in_asset_namespace(p) {
        asset_route(p.skip(MOUNT_LEN as int))
    } else {
        RouteView::Entry
    }
}

fn in_namespace(p: &[u8]) -> (r: bool)
    ensures
        r == in_asset_namespace(p@),
{
    if p.len() < MOUNT_LEN {
        return false;
    }
    let mount = p[0] == SLASH && p[1] == 0x61 && p[2] == 0x73 && p[3] == 0x73 && p[4] == 0x65
        && p[5] == 0x74 && p[6] == 0x73;
    proof {
        if mount {
            assert(p@.take(MOUNT_LEN as int) =~= asset_mount());
        } else if p@.take(MOUNT_LEN as int) == asset_mount() {
            assert(p@.take(MOUNT_LEN as int)[0] == p@[0]);
            assert(p@.take(MOUNT_LEN as int)[1] == p@[1]);
            assert(p@.take(MOUNT_LEN as int)[2] == p@[2]);
            assert(p@.take(MOUNT_LEN as int)[3] == p@[3]);
            assert(p@.take(MOUNT_LEN as int)[4] == p@[4]);
            assert(p@.take(MOUNT_LEN as int)[5] == p@[5]);
            assert(p@.take(MOUNT_LEN as int)[6] == p@[6]);
        }
    }
    mount && (p.len() == MOUNT_LEN || p[MOUNT_LEN] == SLASH)
}

/// The bytes of `p` from `start` on, with leading slashes left out.
fn tail_without_slashes(p: &[u8], start: usize) -> (r: Vec<u8>)
    requires
        start <= p@.len(),
    ensures
        r@ == without_leading_slashes(p@.skip(start as int)),
{
    let mut i: usize = start;
    while i < p.len() && p[i] == SLASH
        invariant
            start <= i <= p@.len(),
            without_leading_slashes(p@.skip(start as int)) == without_leading_slashes(
                p@.skip(i as int),
            ),
        decreases p@.len() - i,
    {
        assert(p@.skip(i as int).skip(1) =~= p@.skip(i + 1));
        i = i + 1;
    }
    let mut out: Vec<u8> = Vec::new();
    let ghost first = i;
    while i < p.len()
        invariant
            first <= i <= p@.len(),
            out@ == p@.subrange(first as int, i as int),
        decreases p@.len() - i,
    {
        out.push(p[i]);
        assert(out@ =~= p@.subrange(first as int, i + 1));
        i = i + 1;
    }
    assert(out@ =~= p@.skip(first as int));
    out
}

/// Adds one piece of a path to the components kept so far, as
/// `file_components` does; false where the piece is `..`.
fn keep_piece(kept: &mut Vec<Vec<u8>>, piece: Vec<u8>) -> (ok: bool)
    ensures
        ok == (piece@ != parent_dir_name()),
        ok ==> byte_strings(final(kept)@) == if piece@.len() == 0 || piece@ == current_dir_name() {
            byte_strings(old(kept)@)
        } else {
            byte_strings(old(kept)@).push(piece@)
        },
{
    let n = piece.len();
    if n == 2 && piece[0] == DOT && piece[1] == DOT {
        assert(piece@ =~= parent_dir_name());
        return false;
    }
    if n == 1 && piece[0] == DOT {
        assert(piece@ =~= current_dir_name());
        return true;
    }
    if n == 0 {
        return true;
    }
    proof {
        if piece@ == parent_dir_name() {
            assert(piece@[0] == DOT && piece@[1] == DOT);
        }
        if piece@ == current_dir_name() {
            assert(piece@[0] == DOT);
        }
    }
    kept.push(piece);
    assert(byte_strings(kept@) =~= byte_strings(old(kept)@).push(piece@));
    true
}

/// Decides where a request for the URL path `path` goes.
pub fn route_request(path: &[u8]) -> (r: Route)
    ensures
        r@ == route_of(path@),
{
    if !in_namespace(path) {
        return Route::Entry;
    }
    let rest = tail_without_slashes(path, MOUNT_LEN);
    let decoded = percent_decode(rest.as_slice());
    if decoded.len() > 0 && decoded[0] == SLASH {
        return Route::NotFound;
    }
    let ghost d = decoded@;
    let mut kept: Vec<Vec<u8>> = Vec::new();
    let mut cur: Vec<u8> = Vec::new();
    let mut failed = false;
    let mut i: usize = 0;
    assert(d.take(0) =~= Seq::<u8>::empty());
    assert(byte_strings(kept@) =~= Seq::<Seq<u8>>::empty());
    while i < decoded.len()
        invariant
            d == decoded@,
            i <= d.len(),
            !failed ==> file_components(closed_pieces(d.take(i as int))) == Some(
                byte_strings(kept@),
            ),
            failed ==> file_components(closed_pieces(d.take(i as int))) is None,
            cur@ == last_piece(d.take(i as int)),
        decreases d.len() - i,
    {
        let b = decoded[i];
        let ghost pre = d.take(i as int);
        assert(d.take(i + 1).drop_last() =~= pre);
        if b == SLASH {
            let piece = cur;
            cur = Vec::new();
            let ghost closed = closed_pieces(pre);
            assert(closed.push(piece@).drop_last() =~= closed);
            if !failed && !keep_piece(&mut kept, piece) {
                failed = true;
            }
        } else {
            cur.push(b);
        }
        i = i + 1;
    }
    assert(d.take(i as int) =~= d);
    let ghost closed = closed_pieces(d);
    assert(closed.push(cur@).drop_last() =~= closed);
    if failed || !keep_piece(&mut kept, cur) || kept.len() == 0 {
        return Route::NotFound;
    }
    Route::Asset(kept)
}

/// A component that stays inside the directory it is joined to: not empty,
/// not `.` or `..`, and holding no `/`.
pub open spec fn safe_component(c: Seq<u8>) -> bool {
    &&& c.len() > 0
    &&& c != current_dir_name()
    &&& c != parent_dir_name()
    &&& forall|k: int| 0 <= k < c.len() ==> c[k] != SLASH
}

pub open spec fn slash_free(c: Seq<u8>) -> bool {
    forall|k: int| 0 <= k < c.len() ==> c[k] != SLASH
}

proof fn lemma_last_piece_slash_free(s: Seq<u8>)
    ensures
        slash_free(last_piece(s)),
    decreases s.len(),
{
    if s.len() > 0 && s.last() != SLASH {
        lemma_last_piece_slash_free(s.drop_last());
    }
}

proof fn lemma_closed_slash_free(s: Seq<u8>)
    ensures
        forall|i: int|
            0 <= i < closed_pieces(s).len() ==> slash_free(#[trigger] closed_pieces(s)[i]),
    decreases s.len(),
{
    if s.len() > 0 {
        let prev = s.drop_last();
        lemma_closed_slash_free(prev);
        lemma_last_piece_slash_free(prev);
        let pieces = closed_pieces(s);
        assert forall|i: int| 0 <= i < pieces.len() implies slash_free(#[trigger] pieces[i]) by {
            if i < closed_pieces(prev).len() {
                assert(pieces[i] == closed_pieces(prev)[i]);
            }
        }
    }
}

proof fn lemma_split_slash_free(s: Seq<u8>)
    ensures
        forall|i: int|
            0 <= i < split_on_slash(s).len() ==> slash_free(#[trigger] split_on_slash(s)[i]),
{
    lemma_closed_slash_free(s);
    lemma_last_piece_slash_free(s);
    let pieces = split_on_slash(s);
    assert forall|i: int| 0 <= i < pieces.len() implies slash_free(#[trigger] pieces[i]) by {
        if i < closed_pieces(s).len() {
            assert(pieces[i] == closed_pieces(s)[i]);
        }
    }
}

proof fn lemma_components_safe(pieces: Seq<Seq<u8>>)
    requires
        forall|i: int| 0 <= i < pieces.len() ==> slash_free(#[trigger] pieces[i]),
    ensures
        file_components(pieces) matches Some(c) ==> forall|j: int|
            0 <= j < c.len() ==> safe_component(#[trigger] c[j]),
    decreases pieces.len(),
{
    if pieces.len() > 0 {
        let rest = pieces.drop_last();
        assert forall|i: int| 0 <= i < rest.len() implies slash_free(#[trigger] rest[i]) by {
            assert(rest[i] == pieces[i]);
        }
        lemma_components_safe(rest);
        assert(slash_free(pieces[pieces.len() - 1]));
    }
}

proof fn lemma_parent_piece_unusable(pieces: Seq<Seq<u8>>, i: int)
    requires
        0 <= i < pieces.len(),
        pieces[i] == parent_dir_name(),
    ensures
        file_components(pieces) is None,
    decreases pieces.len(),
{
    if i < pieces.len() - 1 {
        lemma_parent_piece_unusable(pieces.drop_last(), i);
    }
}

/// Requests in the asset namespace are never answered with the entry
/// document, and every other request is.
pub proof fn lemma_prefix_routing(p: Seq<u8>)
    ensures
        in_asset_namespace(p) ==> !(route_of(p) is Entry),
        !in_asset_namespace(p) ==> route_of(p) == RouteView::Entry,
{
}

/// Every component that an asset route names stays below the asset
/// directory: none is empty, `.`, `..` or holds a `/`, so joining them to
/// the directory cannot leave it.
pub proof fn lemma_asset_route_confined(p: Seq<u8>)
    ensures
        route_of(p) matches RouteView::Asset(c) ==> c.len() > 0 && forall|j: int|
            0 <= j < c.len() ==> safe_component(#[trigger] c[j]),
{
    if in_asset_namespace(p) {
        let decoded = percent_decoded(without_leading_slashes(p.skip(MOUNT_LEN as int)));
        lemma_split_slash_free(decoded);
        lemma_components_safe(split_on_slash(decoded));
    }
}

/// A request in the asset namespace whose decoded path has a `..` piece,
/// written plainly or percent-encoded, is not found.
pub proof fn lemma_parent_reference_not_found(p: Seq<u8>, i: int)
    requires
        in_asset_namespace(p),
        0 <= i < split_on_slash(
            percent_decoded(without_leading_slashes(p.skip(MOUNT_LEN as int))),
        ).len(),
        split_on_slash(percent_decoded(without_leading_slashes(p.skip(MOUNT_LEN as int))))[i]
            == parent_dir_name(),
    ensures
        route_of(p) == RouteView::NotFound,
{
    let decoded = percent_decoded(without_leading_slashes(p.skip(MOUNT_LEN as int)));
    lemma_parent_piece_unusable(split_on_slash(decoded), i);
}

} // verus!
