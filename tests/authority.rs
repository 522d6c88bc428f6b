use tile_car::{authority_from_lowered, authority_from_path};

#[test]
fn authority_of_spaced_name() {
    assert_eq!(authority_from_path("My Document.tile"), "my-document.tile");
}

#[test]
fn authority_uses_base_name() {
    assert_eq!(authority_from_path("/home/user/Docs/Foo_Bar.TILE"), "foo-bar.tile");
    assert_eq!(authority_from_path("dir/"), "dir");
    assert_eq!(authority_from_path("a/My File.tile//"), "my-file.tile");
}

#[test]
fn authority_without_file_name_is_tile() {
    assert_eq!(authority_from_path("/"), "tile");
    assert_eq!(authority_from_path(""), "tile");
    assert_eq!(authority_from_path("docs/.."), "tile");
}

#[test]
fn authority_trims_hyphens() {
    assert_eq!(authority_from_path("  (draft) notes!.tile "), "draft--notes-.tile");
    assert_eq!(authority_from_path("--x--"), "x");
    assert_eq!(authority_from_path("***"), "");
}

#[test]
fn authority_maps_non_ascii() {
    assert_eq!(authority_from_path("Café.tile"), "caf-.tile");
}

#[test]
fn authority_lowered_part_keeps_case() {
    assert_eq!(authority_from_lowered("My Doc"), "My-Doc");
    assert_eq!(authority_from_path("My Doc"), "my-doc");
}
