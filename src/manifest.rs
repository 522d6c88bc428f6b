//! The manifest (MASL) carried in a container's header: its name, the
//! resources of its virtual file tree, its icons and a few optional texts.
use vstd::prelude::*;
use crate::cbor::{Cbor, cbor_of, decode_cbor};
use crate::content_id::{cid_prefix, read_cid};
use crate::error::TileError;
use crate::strmap::StrMap;

verus! {

/// A file of the tree: the identifier of the block that holds its bytes,
/// and the response headers declared beside it.
#[derive(Debug, Clone)]
pub struct Resource {
    pub src: String,
    pub headers: StrMap<String>,
}

pub struct ResourceView {
    pub src: Seq<char>,
    pub headers: Map<Seq<char>, Seq<char>>,
}

impl View for Resource {
    type V = ResourceView;

    open spec fn view(&self) -> ResourceView {
        ResourceView { src: self.src@, headers: self.headers@ }
    }
}

#[derive(Debug, Clone)]
pub struct Icon {
    pub src: String,
    pub sizes: String,
    pub purpose: String,
}

pub struct IconView {
    pub src: Seq<char>,
    pub sizes: Seq<char>,
    pub purpose: Seq<char>,
}

impl View for Icon {
    type V = IconView;

    open spec fn view(&self) -> IconView {
        IconView { src: self.src@, sizes: self.sizes@, purpose: self.purpose@ }
    }
}

#[derive(Debug, Clone)]
pub struct Masl {
    pub name: String,
    pub resources: StrMap<Resource>,
    pub icons: Vec<Icon>,
    pub description: Option<String>,
    pub short_name: Option<String>,
    pub theme_color: Option<String>,
    pub background_color: Option<String>,
}

pub struct MaslView {
    pub name: Seq<char>,
    pub resources: Map<Seq<char>, ResourceView>,
    pub icons: Seq<IconView>,
    pub description: Option<Seq<char>>,
    pub short_name: Option<Seq<char>>,
    pub theme_color: Option<Seq<char>>,
    pub background_color: Option<Seq<char>>,
}

pub open spec fn opt_view(o: Option<String>) -> Option<Seq<char>> {
    match o {
        Some(s) => Some(s@),
        None => None,
    }
}

pub open spec fn icons_view(v: Seq<Icon>) -> Seq<IconView> {
    v.map_values(|i: Icon| i@)
}

impl View for Masl {
    type V = MaslView;

    open spec fn view(&self) -> MaslView {
        MaslView {
            name: self.name@,
            resources: self.resources@,
            icons: icons_view(self.icons@),
            description: opt_view(self.description),
            short_name: opt_view(self.short_name),
            theme_color: opt_view(self.theme_color),
            background_color: opt_view(self.background_color),
        }
    }
}

/// Both maps have distinct keys.
pub open spec fn resources_wf(r: StrMap<Resource>) -> bool {
    &&& r.wf()
    &&& forall|j: int| 0 <= j < r.entries@.len() ==> (#[trigger] r.entries@[j]).1.headers.wf()
}

impl Masl {
    pub open spec fn wf(&self) -> bool {
        resources_wf(self.resources)
    }
}

pub open spec fn view_result<T: View>(r: Result<T, TileError>) -> Result<T::V, TileError> {
    match r {
        Ok(x) => Ok(x@),
        Err(e) => Err(e),
    }
}

// ── reading CBOR values ─────────────────────────────────────────────────

pub open spec fn text_of(v: Cbor) -> Option<Seq<char>> {
    match v {
        Cbor::Text(s) => Some(s@),
        _ => None,
    }
}

/// A key as text; a key of another kind reads as the empty text.
pub open spec fn key_of(v: Cbor) -> Seq<char> {
    match v {
        Cbor::Text(s) => s@,
        _ => Seq::empty(),
    }
}

pub open spec fn or_empty(o: Option<Seq<char>>) -> Seq<char> {
    match o {
        Some(s) => s,
        None => Seq::empty(),
    }
}

/// The bytes of a link with the identity multibase prefix `0x00` taken off.
pub open spec fn link_bytes(b: Seq<u8>) -> Seq<u8> {
    if b.len() > 0 && b[0] == 0 {
        b.drop_first()
    } else {
        b
    }
}

/// The canonical text of a DAG-CBOR link `Tag(42, Bytes(..))`.
pub open spec fn cid_link(v: Cbor) -> Option<Seq<char>> {
    match v {
        Cbor::Tag(t, inner) => if t == 42 {
            match *inner {
                Cbor::Bytes(b) => match cid_prefix(link_bytes(b@)) {
                    Some(p) => Some(p.0),
                    None => None,
                },
                _ => None,
            }
        } else {
            None
        },
        _ => None,
    }
}

fn cbor_to_string(v: &Cbor) -> (r: Option<String>)
    ensures
        opt_view(r) == text_of(*v),
{
    match v {
        Cbor::Text(s) => Some(s.clone()),
        _ => None,
    }
}

fn key_text(v: &Cbor) -> (r: String)
    ensures
        r@ == key_of(*v),
{
    match v {
        Cbor::Text(s) => s.clone(),
        _ => String::new(),
    }
}

/// Whether `k` reads `lit`.
pub(crate) fn key_is(k: &String, lit: &str) -> (r: bool)
    ensures
        r == (k@ == lit@),
{
    let t = lit.to_owned();
    k.eq(&t)
}

fn cbor_to_cid_string(v: &Cbor) -> (r: Option<String>)
    ensures
        opt_view(r) == cid_link(*v),
{
    match v {
        Cbor::Tag(t, inner) => {
            if *t != 42 {
                return None;
            }
            match &**inner {
                Cbor::Bytes(bytes) => {
                    let all = bytes.as_slice();
                    let raw = if all.len() > 0 && all[0] == 0 {
                        vstd::slice::slice_subrange(all, 1, all.len())
                    } else {
                        all
                    };
                    assert(raw@ == link_bytes(bytes@));
                    match read_cid(raw) {
                        Some(p) => Some(p.0),
                        None => None,
                    }
                },
                _ => None,
            }
        },
        _ => None,
    }
}

// ── resources ───────────────────────────────────────────────────────────

/// A resource as far as its entries have been read.
pub struct ResourceDraft {
    pub src: Option<Seq<char>>,
    pub headers: Map<Seq<char>, Seq<char>>,
}

/// One entry of a resource map: an entry whose key is not text is passed
/// over; `src` must be a link; another key keeps a text value as a header
/// and drops any other value.
pub open spec fn resource_step(d: ResourceDraft, e: (Cbor, Cbor)) -> Result<ResourceDraft, TileError> {
    match text_of(e.0) {
        None => Ok(d),
        Some(k) => if k == "src"@ {
            match cid_link(e.1) {
                Some(c) => Ok(ResourceDraft { src: Some(c), headers: d.headers }),
                None => Err(TileError::ResourceSrcNotCid),
            }
        } else {
            match text_of(e.1) {
                Some(s) => Ok(ResourceDraft { src: d.src, headers: d.headers.insert(k, s) }),
                None => Ok(d),
            }
        },
    }
}

/// The entries read in order from `d`; the first failing one ends the read.
pub open spec fn resource_fields(d: ResourceDraft, es: Seq<(Cbor, Cbor)>) -> Result<
    ResourceDraft,
    TileError,
>
    decreases es.len(),
{
    if es.len() == 0 {
        Ok(d)
    } else {
        match resource_step(d, es[0]) {
            Ok(d2) => resource_fields(d2, es.drop_first()),
            Err(x) => Err(x),
        }
    }
}

pub open spec fn resource_spec(v: Cbor) -> Result<ResourceView, TileError> {
    match v {
        Cbor::Entries(es) => match resource_fields(
            ResourceDraft { src: None, headers: Map::empty() },
            es@,
        ) {
            Ok(d) => match d.src {
                Some(s) => Ok(ResourceView { src: s, headers: d.headers }),
                None => Err(TileError::ResourceMissingSrc),
            },
            Err(x) => Err(x),
        },
        _ => Err(TileError::ResourceNotMap),
    }
}

fn parse_resource(v: &Cbor) -> (r: Result<Resource, TileError>)
    ensures
        view_result(r) == resource_spec(*v),
        r matches Ok(x) ==> x.headers.wf(),
{
    let es = match v {
        Cbor::Entries(es) => es,
        _ => return Err(TileError::ResourceNotMap),
    };
    let mut src: Option<String> = None;
    let mut headers: StrMap<String> = StrMap::new();
    let mut i: usize = 0;
    assert(es@.skip(0) =~= es@);
    while i < es.len()
        invariant
            *v == Cbor::Entries(*es),
            i <= es@.len(),
            headers.wf(),
            resource_fields(ResourceDraft { src: None, headers: Map::empty() }, es@) == resource_fields(
                ResourceDraft { src: opt_view(src), headers: headers@ },
                es@.skip(i as int),
            ),
        decreases es@.len() - i,
    {
        let entry = &es[i];
        assert(es@.skip(i as int).len() > 0);
        assert(es@.skip(i as int)[0] == es@[i as int]);
        assert(es@.skip(i as int).drop_first() =~= es@.skip(i + 1));
        match cbor_to_string(&entry.0) {
            None => {},
            Some(key) => {
                if key_is(&key, "src") {
                    match cbor_to_cid_string(&entry.1) {
                        Some(c) => {
                            src = Some(c);
                        },
                        None => {
                            return Err(TileError::ResourceSrcNotCid);
                        },
                    }
                } else {
                    match cbor_to_string(&entry.1) {
                        Some(s) => {
                            headers.insert(key, s);
                        },
                        None => {},
                    }
                }
            },
        }
        i = i + 1;
    }
    assert(es@.skip(i as int).len() == 0);
    match src {
        Some(s) => Ok(Resource { src: s, headers }),
        None => Err(TileError::ResourceMissingSrc),
    }
}

/// One entry of the `resources` map: a text key and a well-formed resource.
pub open spec fn resources_step(m: Map<Seq<char>, ResourceView>, e: (Cbor, Cbor)) -> Result<
    Map<Seq<char>, ResourceView>,
    TileError,
> {
    match text_of(e.0) {
        None => Err(TileError::ResourceKeyNotText),
        Some(k) => match resource_spec(e.1) {
            Ok(r) => Ok(m.insert(k, r)),
            Err(x) => Err(x),
        },
    }
}

pub open spec fn resources_fields(m: Map<Seq<char>, ResourceView>, es: Seq<(Cbor, Cbor)>) -> Result<
    Map<Seq<char>, ResourceView>,
    TileError,
>
    decreases es.len(),
{
    if es.len() == 0 {
        Ok(m)
    } else {
        match resources_step(m, es[0]) {
            Ok(m2) => resources_fields(m2, es.drop_first()),
            Err(x) => Err(x),
        }
    }
}

pub open spec fn resources_spec(v: Cbor) -> Result<Map<Seq<char>, ResourceView>, TileError> {
    match v {
        Cbor::Entries(es) => resources_fields(Map::empty(), es@),
        _ => Err(TileError::ResourcesNotMap),
    }
}

fn parse_resources(v: &Cbor) -> (r: Result<StrMap<Resource>, TileError>)
    ensures
        view_result(r) == resources_spec(*v),
        r matches Ok(m) ==> resources_wf(m),
{
    let es = match v {
        Cbor::Entries(es) => es,
        _ => return Err(TileError::ResourcesNotMap),
    };
    let mut out: StrMap<Resource> = StrMap::new();
    let mut i: usize = 0;
    assert(es@.skip(0) =~= es@);
    while i < es.len()
        invariant
            *v == Cbor::Entries(*es),
            i <= es@.len(),
            resources_wf(out),
            resources_fields(Map::empty(), es@) == resources_fields(out@, es@.skip(i as int)),
        decreases es@.len() - i,
    {
        let entry = &es[i];
        assert(es@.skip(i as int).len() > 0);
        assert(es@.skip(i as int)[0] == es@[i as int]);
        assert(es@.skip(i as int).drop_first() =~= es@.skip(i + 1));
        let path = match cbor_to_string(&entry.0) {
            Some(p) => p,
            None => return Err(TileError::ResourceKeyNotText),
        };
        let resource = match parse_resource(&entry.1) {
            Ok(x) => x,
            Err(x) => return Err(x),
        };
        let ghost prev = out;
        let ghost res = resource;
        out.insert(path, resource);
        assert forall|j: int| 0 <= j < out.entries@.len() implies (#[trigger] out.entries@[j]).1.headers.wf() by {
            if out.entries@[j].1 != res {
                let k = choose|k: int| 0 <= k < prev.entries@.len() && out.entries@[j].1 == prev.entries@[k].1;
                assert(prev.entries@[k].1.headers.wf());
            }
        }
        i = i + 1;
    }
    assert(es@.skip(i as int).len() == 0);
    Ok(out)
}

// ── icons ───────────────────────────────────────────────────────────────

/// An icon as far as its entries have been read.
pub struct IconDraft {
    pub src: Option<Seq<char>>,
    pub sizes: Seq<char>,
    pub purpose: Seq<char>,
}

pub open spec fn icon_step(d: IconDraft, e: (Cbor, Cbor)) -> IconDraft {
    let k = key_of(e.0);
    if k == "src"@ {
        IconDraft { src: text_of(e.1), sizes: d.sizes, purpose: d.purpose }
    } else if k == "sizes"@ {
        IconDraft { src: d.src, sizes: or_empty(text_of(e.1)), purpose: d.purpose }
    } else if k == "purpose"@ {
        IconDraft { src: d.src, sizes: d.sizes, purpose: or_empty(text_of(e.1)) }
    } else {
        d
    }
}

pub open spec fn icon_fields(d: IconDraft, es: Seq<(Cbor, Cbor)>) -> IconDraft
    decreases es.len(),
{
    if es.len() == 0 {
        d
    } else {
        icon_fields(icon_step(d, es[0]), es.drop_first())
    }
}

/// The icon an item of `icons` describes: none unless it is a map with a
/// text `src`.
pub open spec fn icon_spec(v: Cbor) -> Option<IconView> {
    match v {
        Cbor::Entries(es) => {
            let d = icon_fields(IconDraft { src: None, sizes: Seq::empty(), purpose: Seq::empty() }, es@);
            match d.src {
                Some(s) => Some(IconView { src: s, sizes: d.sizes, purpose: d.purpose }),
                None => None,
            }
        },
        _ => None,
    }
}

pub open spec fn icons_fields(acc: Seq<IconView>, items: Seq<Cbor>) -> Seq<IconView>
    decreases items.len(),
{
    if items.len() == 0 {
        acc
    } else {
        match icon_spec(items[0]) {
            Some(i) => icons_fields(acc.push(i), items.drop_first()),
            None => icons_fields(acc, items.drop_first()),
        }
    }
}

pub open spec fn icons_spec(v: Cbor) -> Result<Seq<IconView>, TileError> {
    match v {
        Cbor::Array(items) => Ok(icons_fields(Seq::empty(), items@)),
        _ => Err(TileError::IconsNotArray),
    }
}

fn parse_icon(v: &Cbor) -> (r: Option<Icon>)
    ensures
        match r {
            Some(i) => icon_spec(*v) == Some(i@),
            None => icon_spec(*v) is None,
        },
{
    let es = match v {
        Cbor::Entries(es) => es,
        _ => return None,
    };
    let mut src: Option<String> = None;
    let mut sizes = String::new();
    let mut purpose = String::new();
    let mut i: usize = 0;
    assert(es@.skip(0) =~= es@);
    while i < es.len()
        invariant
            *v == Cbor::Entries(*es),
            i <= es@.len(),
            icon_fields(IconDraft { src: None, sizes: Seq::empty(), purpose: Seq::empty() }, es@) == icon_fields(
                IconDraft { src: opt_view(src), sizes: sizes@, purpose: purpose@ },
                es@.skip(i as int),
            ),
        decreases es@.len() - i,
    {
        let entry = &es[i];
        assert(es@.skip(i as int).len() > 0);
        assert(es@.skip(i as int)[0] == es@[i as int]);
        assert(es@.skip(i as int).drop_first() =~= es@.skip(i + 1));
        let key = key_text(&entry.0);
        if key_is(&key, "src") {
            src = cbor_to_string(&entry.1);
        } else if key_is(&key, "sizes") {
            sizes = match cbor_to_string(&entry.1) {
                Some(t) => t,
                None => String::new(),
            };
        } else if key_is(&key, "purpose") {
            purpose = match cbor_to_string(&entry.1) {
                Some(t) => t,
                None => String::new(),
            };
        }
        i = i + 1;
    }
    assert(es@.skip(i as int).len() == 0);
    match src {
        Some(s) => Some(Icon { src: s, sizes, purpose }),
        None => None,
    }
}

fn parse_icons(v: &Cbor) -> (r: Result<Vec<Icon>, TileError>)
    ensures
        match r {
            Ok(icons) => icons_spec(*v) == Ok::<Seq<IconView>, TileError>(icons_view(icons@)),
            Err(x) => icons_spec(*v) == Err::<Seq<IconView>, TileError>(x),
        },
{
    let items = match v {
        Cbor::Array(a) => a,
        _ => return Err(TileError::IconsNotArray),
    };
    let mut out: Vec<Icon> = Vec::new();
    let mut i: usize = 0;
    assert(items@.skip(0) =~= items@);
    assert(icons_view(out@) =~= Seq::<IconView>::empty());
    while i < items.len()
        invariant
            *v == Cbor::Array(*items),
            i <= items@.len(),
            icons_fields(Seq::empty(), items@) == icons_fields(icons_view(out@), items@.skip(i as int)),
        decreases items@.len() - i,
    {
        assert(items@.skip(i as int)[0] == items@[i as int]);
        assert(items@.skip(i as int).drop_first() =~= items@.skip(i + 1));
        match parse_icon(&items[i]) {
            Some(icon) => {
                let ghost before = out@;
                out.push(icon);
                assert(icons_view(out@) =~= icons_view(before).push(icon@));
            },
            None => {},
        }
        i = i + 1;
    }
    assert(items@.skip(i as int).len() == 0);
    Ok(out)
}

// ── the manifest ────────────────────────────────────────────────────────

/// A manifest as far as the header's entries have been read.
pub struct MaslDraft {
    pub name: Option<Seq<char>>,
    pub resources: Map<Seq<char>, ResourceView>,
    pub icons: Seq<IconView>,
    pub description: Option<Seq<char>>,
    pub short_name: Option<Seq<char>>,
    pub theme_color: Option<Seq<char>>,
    pub background_color: Option<Seq<char>>,
}

pub open spec fn empty_draft() -> MaslDraft {
    MaslDraft {
        name: None,
        resources: Map::empty(),
        icons: Seq::empty(),
        description: None,
        short_name: None,
        theme_color: None,
        background_color: None,
    }
}

/// One entry of the header map. The text fields take a text value (and are
/// cleared by another); `resources` and `icons` must parse; other keys,
/// such as `version` and `roots`, are passed over.
pub open spec fn masl_step(d: MaslDraft, e: (Cbor, Cbor)) -> Result<MaslDraft, TileError> {
    let k = key_of(e.0);
    let t = text_of(e.1);
    if k == "name"@ {
        Ok(MaslDraft { name: t, ..d })
    } else if k == "description"@ {
        Ok(MaslDraft { description: t, ..d })
    } else if k == "short_name"@ {
        Ok(MaslDraft { short_name: t, ..d })
    } else if k == "theme_color"@ {
        Ok(MaslDraft { theme_color: t, ..d })
    } else if k == "background_color"@ {
        Ok(MaslDraft { background_color: t, ..d })
    } else if k == "resources"@ {
        match resources_spec(e.1) {
            Ok(m) => Ok(MaslDraft { resources: m, ..d }),
            Err(x) => Err(x),
        }
    } else if k == "icons"@ {
        match icons_spec(e.1) {
            Ok(i) => Ok(MaslDraft { icons: i, ..d }),
            Err(x) => Err(x),
        }
    } else {
        Ok(d)
    }
}

pub open spec fn masl_fields(d: MaslDraft, es: Seq<(Cbor, Cbor)>) -> Result<MaslDraft, TileError>
    decreases es.len(),
{
    if es.len() == 0 {
        Ok(d)
    } else {
        match masl_step(d, es[0]) {
            Ok(d2) => masl_fields(d2, es.drop_first()),
            Err(x) => Err(x),
        }
    }
}

/// The manifest that a decoded header describes.
pub open spec fn masl_spec(v: Cbor) -> Result<MaslView, TileError> {
    match v {
        Cbor::Entries(es) => match masl_fields(empty_draft(), es@) {
            Ok(d) => match d.name {
                Some(n) => Ok(
                    MaslView {
                        name: n,
                        resources: d.resources,
                        icons: d.icons,
                        description: d.description,
                        short_name: d.short_name,
                        theme_color: d.theme_color,
                        background_color: d.background_color,
                    },
                ),
                None => Err(TileError::MissingName),
            },
            Err(x) => Err(x),
        },
        _ => Err(TileError::HeaderNotMap),
    }
}

/// The manifest that the header bytes `b` describe.
pub open spec fn parse_masl_spec(b: Seq<u8>) -> Result<MaslView, TileError> {
    match cbor_of(b) {
        Some(v) => masl_spec(v),
        None => Err(TileError::CborDecode),
    }
}

/// Reads the manifest out of a decoded header.
pub fn masl_from_cbor(v: &Cbor) -> (r: Result<Masl, TileError>)
    ensures
        view_result(r) == masl_spec(*v),
        r matches Ok(m) ==> m.wf(),
{
    let es = match v {
        Cbor::Entries(es) => es,
        _ => return Err(TileError::HeaderNotMap),
    };
    let mut name: Option<String> = None;
    let mut resources: StrMap<Resource> = StrMap::new();
    let mut icons: Vec<Icon> = Vec::new();
    let mut description: Option<String> = None;
    let mut short_name: Option<String> = None;
    let mut theme_color: Option<String> = None;
    let mut background_color: Option<String> = None;
    let mut i: usize = 0;
    assert(es@.skip(0) =~= es@);
    assert(icons_view(icons@) =~= Seq::<IconView>::empty());
    while i < es.len()
        invariant
            *v == Cbor::Entries(*es),
            i <= es@.len(),
            resources_wf(resources),
            masl_fields(empty_draft(), es@) == masl_fields(
                MaslDraft {
                    name: opt_view(name),
                    resources: resources@,
                    icons: icons_view(icons@),
                    description: opt_view(description),
                    short_name: opt_view(short_name),
                    theme_color: opt_view(theme_color),
                    background_color: opt_view(background_color),
                },
                es@.skip(i as int),
            ),
        decreases es@.len() - i,
    {
        let entry = &es[i];
        assert(es@.skip(i as int).len() > 0);
        assert(es@.skip(i as int)[0] == es@[i as int]);
        assert(es@.skip(i as int).drop_first() =~= es@.skip(i + 1));
        let key = key_text(&entry.0);
        if key_is(&key, "name") {
            name = cbor_to_string(&entry.1);
        } else if key_is(&key, "description") {
            description = cbor_to_string(&entry.1);
        } else if key_is(&key, "short_name") {
            short_name = cbor_to_string(&entry.1);
        } else if key_is(&key, "theme_color") {
            theme_color = cbor_to_string(&entry.1);
        } else if key_is(&key, "background_color") {
            background_color = cbor_to_string(&entry.1);
        } else if key_is(&key, "resources") {
            resources = match parse_resources(&entry.1) {
                Ok(m) => m,
                Err(x) => return Err(x),
            };
        } else if key_is(&key, "icons") {
            icons = match parse_icons(&entry.1) {
                Ok(l) => l,
                Err(x) => return Err(x),
            };
        }
        i = i + 1;
    }
    assert(es@.skip(i as int).len() == 0);
    match name {
        Some(n) => Ok(
            Masl {
                name: n,
                resources,
                icons,
                description,
                short_name,
                theme_color,
                background_color,
            },
        ),
        None => Err(TileError::MissingName),
    }
}

/// Decodes the header bytes and reads the manifest out of them.
pub fn parse_masl(header: &[u8]) -> (r: Result<Masl, TileError>)
    ensures
        view_result(r) == parse_masl_spec(header@),
        r matches Ok(m) ==> m.wf(),
{
    match decode_cbor(header) {
        Some(v) => masl_from_cbor(&v),
        None => Err(TileError::CborDecode),
    }
}

// ── laws ────────────────────────────────────────────────────────────────

proof fn lemma_fields_keep_no_name(d: MaslDraft, es: Seq<(Cbor, Cbor)>)
    requires
        d.name is None,
        forall|i: int| 0 <= i < es.len() ==> key_of(#[trigger] es[i].0) != "name"@,
    ensures
        masl_fields(d, es) matches Ok(r) ==> r.name is None,
    decreases es.len(),
{
    if es.len() > 0 {
        let rest = es.drop_first();
        assert(forall|i: int| 0 <= i < rest.len() ==> rest[i] == es[i + 1]);
        match masl_step(d, es[0]) {
            Ok(d2) => lemma_fields_keep_no_name(d2, rest),
            Err(_) => {},
        }
    }
}

/// A header map with no `name` entry does not parse.
pub proof fn lemma_missing_name_fails(header: Vec<(Cbor, Cbor)>)
    requires
        forall|i: int| 0 <= i < header@.len() ==> key_of(#[trigger] header@[i].0) != "name"@,
    ensures
        masl_spec(Cbor::Entries(header)) is Err,
{
    lemma_fields_keep_no_name(empty_draft(), header@);
}

proof fn lemma_masl_error_sticks(d: MaslDraft, es: Seq<(Cbor, Cbor)>, i: int)
    requires
        0 <= i < es.len(),
        forall|d2: MaslDraft| #[trigger] masl_step(d2, es[i]) is Err,
    ensures
        masl_fields(d, es) is Err,
    decreases es.len(),
{
    if i > 0 {
        let rest = es.drop_first();
        assert(rest[i - 1] == es[i]);
        match masl_step(d, es[0]) {
            Ok(d2) => lemma_masl_error_sticks(d2, rest, i - 1),
            Err(_) => {},
        }
    } else {
        assert(masl_step(d, es[0]) is Err);
    }
}

proof fn lemma_resources_error_sticks(m: Map<Seq<char>, ResourceView>, es: Seq<(Cbor, Cbor)>, i: int)
    requires
        0 <= i < es.len(),
        forall|m2: Map<Seq<char>, ResourceView>| #[trigger] resources_step(m2, es[i]) is Err,
    ensures
        resources_fields(m, es) is Err,
    decreases es.len(),
{
    if i > 0 {
        let rest = es.drop_first();
        assert(rest[i - 1] == es[i]);
        match resources_step(m, es[0]) {
            Ok(m2) => lemma_resources_error_sticks(m2, rest, i - 1),
            Err(_) => {},
        }
    } else {
        assert(resources_step(m, es[0]) is Err);
    }
}

proof fn lemma_fields_keep_no_src(d: ResourceDraft, es: Seq<(Cbor, Cbor)>)
    requires
        d.src is None,
        forall|i: int| 0 <= i < es.len() ==> key_of(#[trigger] es[i].0) != "src"@,
    ensures
        resource_fields(d, es) matches Ok(r) ==> r.src is None,
    decreases es.len(),
{
    if es.len() > 0 {
        let rest = es.drop_first();
        assert(forall|i: int| 0 <= i < rest.len() ==> rest[i] == es[i + 1]);
        match resource_step(d, es[0]) {
            Ok(d2) => lemma_fields_keep_no_src(d2, rest),
            Err(_) => {},
        }
    }
}

/// A resource map with no `src` entry under a text key of the `resources`
/// entry of the header makes the whole manifest fail to parse.
pub proof fn lemma_resource_without_src_fails(
    header: Vec<(Cbor, Cbor)>,
    i: int,
    resources: Vec<(Cbor, Cbor)>,
    j: int,
    resource: Vec<(Cbor, Cbor)>,
)
    requires
        0 <= i < header@.len(),
        key_of(header@[i].0) == "resources"@,
        header@[i].1 == Cbor::Entries(resources),
        0 <= j < resources@.len(),
        text_of(resources@[j].0) is Some,
        resources@[j].1 == Cbor::Entries(resource),
        forall|k: int| 0 <= k < resource@.len() ==> key_of(#[trigger] resource@[k].0) != "src"@,
    ensures
        masl_spec(Cbor::Entries(header)) is Err,
{
    lemma_fields_keep_no_src(ResourceDraft { src: None, headers: Map::empty() }, resource@);
    assert(resource_spec(resources@[j].1) is Err);
    assert forall|m2: Map<Seq<char>, ResourceView>| #[trigger] resources_step(m2, resources@[j]) is Err by {}
    lemma_resources_error_sticks(Map::empty(), resources@, j);
    assert(resources_spec(header@[i].1) is Err);
    reveal_strlit("resources");
    reveal_strlit("name");
    reveal_strlit("description");
    reveal_strlit("short_name");
    reveal_strlit("theme_color");
    reveal_strlit("background_color");
    assert forall|d2: MaslDraft| #[trigger] masl_step(d2, header@[i]) is Err by {
        let k = key_of(header@[i].0);
        assert(k.len() == 9);
        assert("name"@.len() == 4 && "description"@.len() == 11 && "short_name"@.len() == 10);
        assert("theme_color"@.len() == 11 && "background_color"@.len() == 16);
        assert(k != "name"@ && k != "description"@ && k != "short_name"@);
        assert(k != "theme_color"@ && k != "background_color"@);
    }
    lemma_masl_error_sticks(empty_draft(), header@, i);
}

proof fn lemma_icon_fields_keep_no_src(d: IconDraft, es: Seq<(Cbor, Cbor)>)
    requires
        d.src is None,
        forall|i: int| 0 <= i < es.len() ==> key_of(#[trigger] es[i].0) != "src"@,
    ensures
        icon_fields(d, es).src is None,
    decreases es.len(),
{
    if es.len() > 0 {
        let rest = es.drop_first();
        assert(forall|i: int| 0 <= i < rest.len() ==> rest[i] == es[i + 1]);
        lemma_icon_fields_keep_no_src(icon_step(d, es[0]), rest);
    }
}

proof fn lemma_icons_skip(acc: Seq<IconView>, before: Seq<Cbor>, bad: Cbor, after: Seq<Cbor>)
    requires
        icon_spec(bad) is None,
    ensures
        icons_fields(acc, before + seq![bad] + after) == icons_fields(acc, before + after),
    decreases before.len(),
{
    let whole = before + seq![bad] + after;
    if before.len() == 0 {
        assert(whole.drop_first() =~= after);
        assert(before + after =~= after);
    } else {
        assert(whole.drop_first() =~= before.drop_first() + seq![bad] + after);
        assert((before + after).drop_first() =~= before.drop_first() + after);
        assert(whole[0] == before[0]);
        assert((before + after)[0] == before[0]);
        match icon_spec(before[0]) {
            Some(ic) => lemma_icons_skip(acc.push(ic), before.drop_first(), bad, after),
            None => lemma_icons_skip(acc, before.drop_first(), bad, after),
        }
    }
}

/// An item of `icons` that is a map without a `src` entry is left out, and
/// the other icons are read as if it were not there.
pub proof fn lemma_icon_without_src_skipped(
    icons: Vec<Cbor>,
    without: Vec<Cbor>,
    at: int,
    entries: Vec<(Cbor, Cbor)>,
)
    requires
        0 <= at < icons@.len(),
        icons@[at] == Cbor::Entries(entries),
        forall|k: int| 0 <= k < entries@.len() ==> key_of(#[trigger] entries@[k].0) != "src"@,
        without@ == icons@.remove(at),
    ensures
        icons_spec(Cbor::Array(icons)) == icons_spec(Cbor::Array(without)),
{
    lemma_icon_fields_keep_no_src(
        IconDraft { src: None, sizes: Seq::empty(), purpose: Seq::empty() },
        entries@,
    );
    let before = icons@.take(at);
    let after = icons@.skip(at + 1);
    assert(icons@ =~= before + seq![icons@[at]] + after);
    assert(without@ =~= before + after);
    lemma_icons_skip(Seq::empty(), before, icons@[at], after);
}

} // verus!
