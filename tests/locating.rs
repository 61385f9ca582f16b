use spa_host::locator::{asset_file_path, assets_dir, index_path, join_path, resolve_base_directory};
use spa_host::route::{route_request, Route};

#[test]
fn hosted_platform_uses_fixed_directory() {
    assert_eq!(resolve_base_directory(true, Some(b"/home/dev/app".to_vec())), b"/build_assets/dist".to_vec());
    assert_eq!(resolve_base_directory(true, None), b"/build_assets/dist".to_vec());
}

#[test]
fn local_run_uses_dist_below_working_directory() {
    assert_eq!(resolve_base_directory(false, Some(b"/home/dev/app".to_vec())), b"/home/dev/app/dist".to_vec());
    assert_eq!(resolve_base_directory(false, Some(b"/".to_vec())), b"/dist".to_vec());
}

#[test]
fn unknown_working_directory_falls_back_to_relative_dist() {
    assert_eq!(resolve_base_directory(false, None), b"dist".to_vec());
}

#[test]
fn resolution_is_repeatable() {
    let a = resolve_base_directory(false, Some(b"/srv".to_vec()));
    let b = resolve_base_directory(false, Some(b"/srv".to_vec()));
    assert_eq!(a, b);
}

#[test]
fn joins_paths_like_a_path_buffer() {
    assert_eq!(join_path(b"/a/b", b"c"), b"/a/b/c".to_vec());
    assert_eq!(join_path(b"/a/b/", b"c"), b"/a/b/c".to_vec());
    assert_eq!(join_path(b"", b"c"), b"c".to_vec());
    assert_eq!(join_path(b"/a", b"/etc"), b"/etc".to_vec());
}

#[test]
fn entry_and_asset_paths_below_base() {
    assert_eq!(index_path(b"/build_assets/dist"), b"/build_assets/dist/index.html".to_vec());
    assert_eq!(assets_dir(b"/build_assets/dist"), b"/build_assets/dist/assets".to_vec());
    assert_eq!(index_path(b"dist"), b"dist/index.html".to_vec());
}

#[test]
fn asset_file_path_joins_components_below_asset_dir() {
    let components = match route_request(b"/assets/fonts/%2e/inter.woff2") {
        Route::Asset(c) => c,
        _ => panic!("expected an asset route"),
    };
    assert_eq!(
        asset_file_path(b"/srv/dist/assets", &components),
        b"/srv/dist/assets/fonts/inter.woff2".to_vec()
    );
    assert_eq!(asset_file_path(b"/srv/dist/assets", &Vec::new()), b"/srv/dist/assets".to_vec());
}
