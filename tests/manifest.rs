use tile_car::{masl_from_cbor, Cbor, TileError};

fn text(s: &str) -> Cbor {
    Cbor::Text(s.to_string())
}

#[test]
fn manifest_without_name_fails() {
    let v = Cbor::Entries(vec![(text("description"), text("d")), (Cbor::Other, text("x"))]);
    assert_eq!(masl_from_cbor(&v).unwrap_err(), TileError::MissingName);
}

#[test]
fn manifest_name_must_be_text() {
    let v = Cbor::Entries(vec![(text("name"), Cbor::Other)]);
    assert_eq!(masl_from_cbor(&v).unwrap_err(), TileError::MissingName);
}

#[test]
fn resource_without_src_fails_whole_manifest() {
    let v = Cbor::Entries(vec![
        (text("name"), text("n")),
        (
            text("resources"),
            Cbor::Entries(vec![(text("/a"), Cbor::Entries(vec![(text("content-type"), text("text/html"))]))]),
        ),
    ]);
    assert_eq!(masl_from_cbor(&v).unwrap_err(), TileError::ResourceMissingSrc);
}

#[test]
fn icon_without_src_is_skipped() {
    let v = Cbor::Entries(vec![
        (text("name"), text("n")),
        (
            text("icons"),
            Cbor::Array(vec![
                Cbor::Entries(vec![(text("src"), text("/a.png"))]),
                Cbor::Entries(vec![(text("sizes"), text("16x16"))]),
                Cbor::Entries(vec![(text("src"), text("/b.png")), (text("sizes"), Cbor::Other)]),
            ]),
        ),
    ]);
    let m = masl_from_cbor(&v).unwrap();
    assert_eq!(m.icons.len(), 2);
    assert_eq!(m.icons[0].src, "/a.png");
    assert_eq!(m.icons[1].src, "/b.png");
    assert_eq!(m.icons[1].sizes, "");
    assert_eq!(m.resources.entries.len(), 0);
}

#[test]
fn header_must_be_a_map() {
    assert_eq!(masl_from_cbor(&Cbor::Array(vec![])).unwrap_err(), TileError::HeaderNotMap);
    assert_eq!(masl_from_cbor(&text("x")).unwrap_err(), TileError::HeaderNotMap);
}

#[test]
fn resource_entry_with_non_text_key_is_ignored() {
    let link = Cbor::Tag(42, Box::new(Cbor::Bytes(vec![0, 0x01, 0x55, 0x12, 0x02, 0xaa, 0xbb])));
    let v = Cbor::Entries(vec![
        (text("name"), text("n")),
        (
            text("resources"),
            Cbor::Entries(vec![(
                text("/a"),
                Cbor::Entries(vec![
                    (text("src"), link),
                    (Cbor::Other, text("dropped")),
                    (text("x-kind"), text("kept")),
                ]),
            )]),
        ),
    ]);
    let m = masl_from_cbor(&v).unwrap();
    let r = &m.resources.entries[0].1;
    assert_eq!(r.headers.entries.len(), 1);
    assert_eq!(r.headers.entries[0].0, "x-kind");
    assert!(r.headers.get(&String::new()).is_none());
}
