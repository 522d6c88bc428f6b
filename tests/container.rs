use ciborium::value::Value;
use cid::multihash::Multihash;
use cid::Cid;
use tile_car::{parse_masl, parse_tile, response_headers, TileError, TileStore};

fn cid_for(seed: u8) -> Cid {
    let mh = Multihash::<64>::wrap(0x12, &[seed; 32]).unwrap();
    Cid::new_v1(0x55, mh)
}

fn link(c: &Cid) -> Value {
    let mut b = vec![0u8];
    b.extend(c.to_bytes());
    Value::Tag(42, Box::new(Value::Bytes(b)))
}

fn text(s: &str) -> Value {
    Value::Text(s.to_string())
}

fn cbor(v: &Value) -> Vec<u8> {
    let mut buf = Vec::new();
    ciborium::ser::into_writer(v, &mut buf).unwrap();
    buf
}

fn varint(mut v: u64) -> Vec<u8> {
    let mut out = Vec::new();
    loop {
        let low = (v % 128) as u8;
        v /= 128;
        if v == 0 {
            out.push(low);
            return out;
        }
        out.push(low + 128);
    }
}

fn block(c: &Cid, payload: &[u8]) -> Vec<u8> {
    let mut body = c.to_bytes();
    body.extend_from_slice(payload);
    let mut out = varint(body.len() as u64);
    out.extend(body);
    out
}

fn container(header: &Value, blocks: &[Vec<u8>]) -> Vec<u8> {
    let h = cbor(header);
    let mut out = varint(h.len() as u64);
    out.extend(h);
    for b in blocks {
        out.extend_from_slice(b);
    }
    out
}

fn manifest(resources: Vec<(Value, Value)>) -> Value {
    Value::Map(vec![
        (text("version"), Value::Integer(1.into())),
        (text("name"), text("Demo")),
        (text("resources"), Value::Map(resources)),
    ])
}

fn resource(c: &Cid, content_type: Option<&str>) -> Value {
    let mut entries = vec![(text("src"), link(c))];
    if let Some(t) = content_type {
        entries.push((text("content-type"), text(t)));
    }
    Value::Map(entries)
}

#[test]
fn parse_indexes_blocks() {
    let a = cid_for(1);
    let b = cid_for(2);
    let header = manifest(vec![(text("/index.html"), resource(&a, Some("text/html")))]);
    let blocks = vec![block(&a, b"<p>hi</p>"), block(&b, b"xyz")];
    let data = container(&header, &blocks);
    let tile = parse_tile("doc.tile".to_string(), &data).unwrap();
    assert_eq!(tile.path, "doc.tile");
    assert_eq!(tile.masl.name, "Demo");
    assert_eq!(tile.index.entries.len(), 2);
    let (off, len) = *tile.index.get(&a.to_string()).unwrap();
    assert_eq!(&data[off as usize..(off + len) as usize], b"<p>hi</p>");
    let (off, len) = *tile.index.get(&b.to_string()).unwrap();
    assert_eq!(&data[off as usize..(off + len) as usize], b"xyz");
    for (_, (o, l)) in &tile.index.entries {
        assert!(o + l <= data.len() as u64);
    }
}

#[test]
fn cid_text_round_trips_through_index() {
    let c = cid_for(7);
    let header = manifest(vec![(text("/"), resource(&c, None))]);
    let data = container(&header, &[block(&c, b"payload")]);
    let tile = parse_tile("x.tile".to_string(), &data).unwrap();
    let key = &tile.index.entries[0].0;
    assert_eq!(key, &c.to_string());
    assert_eq!(Cid::try_from(key.as_str()).unwrap(), c);
    assert_eq!(tile.masl.resources.entries[0].1.src, c.to_string());
}

#[test]
fn duplicate_identifiers_keep_last_block() {
    let a = cid_for(3);
    let header = manifest(vec![]);
    let data = container(&header, &[block(&a, b"first"), block(&a, b"second!")]);
    let tile = parse_tile("d.tile".to_string(), &data).unwrap();
    assert_eq!(tile.index.entries.len(), 1);
    let (off, len) = *tile.index.get(&a.to_string()).unwrap();
    assert_eq!(&data[off as usize..(off + len) as usize], b"second!");
}

#[test]
fn zero_length_ends_blocks() {
    let a = cid_for(4);
    let b = cid_for(5);
    let header = manifest(vec![]);
    let mut end = vec![0u8];
    end.extend(vec![0xffu8; 5]);
    let data = container(&header, &[block(&a, b"one"), end, block(&b, b"two")]);
    let tile = parse_tile("e.tile".to_string(), &data).unwrap();
    assert_eq!(tile.index.entries.len(), 1);
    assert!(tile.index.get(&b.to_string()).is_none());
}

#[test]
fn header_errors() {
    assert_eq!(parse_tile("f".to_string(), &[]).unwrap_err(), TileError::HeaderLength);
    assert_eq!(parse_tile("f".to_string(), &[0x80]).unwrap_err(), TileError::HeaderLength);
    assert_eq!(parse_tile("f".to_string(), &[0x05, 0xa0]).unwrap_err(), TileError::HeaderTooLong);
    assert_eq!(parse_tile("f".to_string(), &[0x01, 0xff]).unwrap_err(), TileError::CborDecode);
    let arr = cbor(&Value::Array(vec![]));
    let mut data = varint(arr.len() as u64);
    data.extend(arr);
    assert_eq!(parse_tile("f".to_string(), &data).unwrap_err(), TileError::HeaderNotMap);
}

#[test]
fn block_errors() {
    let header = manifest(vec![]);
    let h = cbor(&header);
    let start = varint(h.len() as u64).len() + h.len();

    let data = container(&header, &[vec![0x80]]);
    assert_eq!(parse_tile("f".to_string(), &data).unwrap_err(), TileError::BlockLength(start));

    let data = container(&header, &[vec![0x10, 0x01, 0x02]]);
    assert_eq!(parse_tile("f".to_string(), &data).unwrap_err(), TileError::BlockTooLong(start + 1));

    let data = container(&header, &[vec![0x03, 0x01, 0x55, 0x12]]);
    assert_eq!(parse_tile("f".to_string(), &data).unwrap_err(), TileError::BadCid(start + 1));
}

#[test]
fn identifier_must_fit_in_its_block() {
    let a = cid_for(6);
    let header = manifest(vec![]);
    let bytes = a.to_bytes();
    let mut short = varint(10);
    short.extend_from_slice(&bytes);
    let data = container(&header, &[short]);
    let h = cbor(&header);
    let start = varint(h.len() as u64).len() + h.len();
    assert_eq!(parse_tile("f".to_string(), &data).unwrap_err(), TileError::BadCid(start + 1));
}

#[test]
fn manifest_errors() {
    let no_name = Value::Map(vec![(text("resources"), Value::Map(vec![]))]);
    assert_eq!(parse_masl(&cbor(&no_name)).unwrap_err(), TileError::MissingName);
    let bad_resources = Value::Map(vec![(text("name"), text("n")), (text("resources"), Value::Array(vec![]))]);
    assert_eq!(parse_masl(&cbor(&bad_resources)).unwrap_err(), TileError::ResourcesNotMap);
    let bad_icons = Value::Map(vec![(text("name"), text("n")), (text("icons"), Value::Map(vec![]))]);
    assert_eq!(parse_masl(&cbor(&bad_icons)).unwrap_err(), TileError::IconsNotArray);
}

#[test]
fn resource_errors() {
    let c = cid_for(8);
    let key_not_text = manifest(vec![(Value::Integer(3.into()), resource(&c, None))]);
    assert_eq!(parse_masl(&cbor(&key_not_text)).unwrap_err(), TileError::ResourceKeyNotText);
    let not_map = manifest(vec![(text("/a"), text("oops"))]);
    assert_eq!(parse_masl(&cbor(&not_map)).unwrap_err(), TileError::ResourceNotMap);
    let no_src = manifest(vec![(text("/a"), Value::Map(vec![(text("content-type"), text("text/plain"))]))]);
    assert_eq!(parse_masl(&cbor(&no_src)).unwrap_err(), TileError::ResourceMissingSrc);
    let bad_src = manifest(vec![(text("/a"), Value::Map(vec![(text("src"), text("bafy"))]))]);
    assert_eq!(parse_masl(&cbor(&bad_src)).unwrap_err(), TileError::ResourceSrcNotCid);
    let bad_link = manifest(vec![(
        text("/a"),
        Value::Map(vec![(text("src"), Value::Tag(42, Box::new(Value::Bytes(vec![0, 1]))))]),
    )]);
    assert_eq!(parse_masl(&cbor(&bad_link)).unwrap_err(), TileError::ResourceSrcNotCid);
}

#[test]
fn manifest_fields_and_icons() {
    let c = cid_for(9);
    let header = Value::Map(vec![
        (text("name"), text("First")),
        (text("description"), text("About")),
        (text("short_name"), text("F")),
        (text("theme_color"), text("#fff")),
        (text("background_color"), Value::Integer(1.into())),
        (text("roots"), Value::Array(vec![])),
        (text("name"), text("Second")),
        (
            text("resources"),
            Value::Map(vec![(
                text("/a"),
                Value::Map(vec![
                    (text("src"), link(&c)),
                    (text("content-type"), text("text/css")),
                    (text("x-size"), Value::Integer(5.into())),
                    (text("cache-control"), text("none")),
                ]),
            )]),
        ),
        (
            text("icons"),
            Value::Array(vec![
                Value::Map(vec![(text("src"), text("/i.png")), (text("sizes"), text("48x48"))]),
                Value::Map(vec![(text("sizes"), text("96x96"))]),
                text("not a map"),
                Value::Map(vec![(text("src"), text("/j.png")), (text("purpose"), text("any"))]),
            ]),
        ),
    ]);
    let m = parse_masl(&cbor(&header)).unwrap();
    assert_eq!(m.name, "Second");
    assert_eq!(m.description.as_deref(), Some("About"));
    assert_eq!(m.short_name.as_deref(), Some("F"));
    assert_eq!(m.theme_color.as_deref(), Some("#fff"));
    assert_eq!(m.background_color, None);
    assert_eq!(m.icons.len(), 2);
    assert_eq!(m.icons[0].src, "/i.png");
    assert_eq!(m.icons[0].sizes, "48x48");
    assert_eq!(m.icons[0].purpose, "");
    assert_eq!(m.icons[1].src, "/j.png");
    assert_eq!(m.icons[1].purpose, "any");
    let r = m.resources.get(&"/a".to_string()).unwrap();
    assert_eq!(r.src, c.to_string());
    assert_eq!(r.headers.entries.len(), 2);
    assert_eq!(r.headers.get(&"content-type".to_string()).unwrap(), "text/css");
    assert!(r.headers.get(&"x-size".to_string()).is_none());
}

#[test]
fn link_without_identity_prefix() {
    let c = cid_for(10);
    let header = manifest(vec![(
        text("/b"),
        Value::Map(vec![(text("src"), Value::Tag(42, Box::new(Value::Bytes(c.to_bytes()))))]),
    )]);
    let m = parse_masl(&cbor(&header)).unwrap();
    assert_eq!(m.resources.get(&"/b".to_string()).unwrap().src, c.to_string());
}

#[test]
fn resolve_root_falls_back_to_index_html() {
    let c = cid_for(11);
    let header = manifest(vec![(text("/index.html"), resource(&c, Some("text/html")))]);
    let data = container(&header, &[block(&c, b"<html>")]);
    let tile = parse_tile("r.tile".to_string(), &data).unwrap();
    let (res, off, len) = tile.resolve(&"/".to_string()).unwrap();
    assert_eq!(res.src, c.to_string());
    assert_eq!(&data[off as usize..(off + len) as usize], b"<html>");
    assert!(tile.resolve(&"".to_string()).is_ok());
    assert_eq!(tile.resolve(&"/foo".to_string()).unwrap_err(), TileError::NoResource);
}

#[test]
fn resolve_trailing_slash_variants() {
    let c = cid_for(12);
    let d = cid_for(13);
    let header = manifest(vec![(text("/docs"), resource(&c, None)), (text("/app/"), resource(&d, None))]);
    let data = container(&header, &[block(&c, b"docs"), block(&d, b"app")]);
    let tile = parse_tile("s.tile".to_string(), &data).unwrap();
    assert_eq!(tile.resolve(&"/docs//".to_string()).unwrap().0.src, c.to_string());
    assert_eq!(tile.resolve(&"/app".to_string()).unwrap().0.src, d.to_string());
    assert_eq!(tile.resolve(&"/docs/x".to_string()).unwrap_err(), TileError::NoResource);
}

#[test]
fn missing_block_fails_at_read_time() {
    let present = cid_for(14);
    let absent = cid_for(15);
    let header = manifest(vec![(text("/gone"), resource(&absent, None))]);
    let data = container(&header, &[block(&present, b"here")]);
    let tile = parse_tile("m.tile".to_string(), &data).unwrap();
    assert_eq!(tile.resolve(&"/gone".to_string()).unwrap_err(), TileError::BlockNotFound);
    assert_eq!(tile.block_range(&absent.to_string()).unwrap_err(), TileError::BlockNotFound);
    assert!(tile.block_range(&present.to_string()).is_ok());
}

#[test]
fn headers_for_response() {
    let c = cid_for(16);
    let header = manifest(vec![
        (
            text("/a"),
            Value::Map(vec![
                (text("src"), link(&c)),
                (text("content-type"), text("text/css")),
                (text("cache-control"), text("max-age=60")),
            ]),
        ),
        (text("/b"), resource(&c, None)),
    ]);
    let m = parse_masl(&cbor(&header)).unwrap();
    let h = response_headers(m.resources.get(&"/a".to_string()).unwrap());
    assert_eq!(
        h,
        vec![
            ("content-type".to_string(), "text/css".to_string()),
            ("access-control-allow-origin".to_string(), "*".to_string()),
            ("cache-control".to_string(), "max-age=60".to_string()),
        ]
    );
    let h = response_headers(m.resources.get(&"/b".to_string()).unwrap());
    assert_eq!(h.len(), 2);
    assert_eq!(h[0].1, "application/octet-stream");
}

#[test]
fn store_loads_and_resolves() {
    let c = cid_for(17);
    let header = manifest(vec![(text("/index.html"), resource(&c, None))]);
    let data = container(&header, &[block(&c, b"root")]);
    let mut store = TileStore::new();
    let authority = store.load("/tmp/My Site.tile".to_string(), &data).unwrap();
    assert_eq!(authority, "my-site.tile");
    assert_eq!(store.get(&authority).unwrap().masl.name, "Demo");
    let (_, off, len) = store.resolve(&authority, &"/".to_string()).unwrap();
    assert_eq!(&data[off as usize..(off + len) as usize], b"root");
    assert_eq!(store.resolve(&"other".to_string(), &"/".to_string()).unwrap_err(), TileError::NotLoaded);
    assert_eq!(store.load("bad.tile".to_string(), &[0x80]).unwrap_err(), TileError::HeaderLength);
    assert!(store.get(&"bad.tile".to_string()).is_none());
}

#[test]
fn store_replaces_same_authority() {
    let c = cid_for(18);
    let first = container(&manifest(vec![]), &[]);
    let second_header = Value::Map(vec![(text("name"), text("Newer"))]);
    let second = container(&second_header, &[block(&c, b"x")]);
    let mut store = TileStore::new();
    store.load("a/Doc.tile".to_string(), &first).unwrap();
    store.load("b/doc.tile".to_string(), &second).unwrap();
    let tile = store.get(&"doc.tile".to_string()).unwrap();
    assert_eq!(tile.masl.name, "Newer");
    assert_eq!(tile.path, "b/doc.tile");
}
