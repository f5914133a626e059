use pdf_merge::merge::{merge_documents, Source};
use pdf_merge::{Document, Object, ObjectId};

fn rt_oid(n: u32) -> ObjectId {
    ObjectId { num: n, gen: 0 }
}

/// A sample source with real page content, so that a conforming
/// reader accepts the serialized result.
fn rt_sample_doc(npages: u32) -> Document {
    let mut objects: Vec<(ObjectId, Object)> = Vec::new();
    let mut kids: Vec<Object> = Vec::new();
    for i in 0..npages {
        kids.push(Object::Ref(rt_oid(3 + i)));
    }
    objects.push((
        rt_oid(2),
        Object::Dict(vec![
            ("Type".to_string(), Object::Name("Pages".to_string())),
            ("Count".to_string(), Object::Integer(npages as i64)),
            ("Kids".to_string(), Object::Array(kids)),
            (
                "MediaBox".to_string(),
                Object::Array(vec![
                    Object::Integer(0),
                    Object::Integer(0),
                    Object::Integer(612),
                    Object::Integer(792),
                ]),
            ),
        ]),
    ));
    objects.push((
        rt_oid(1),
        Object::Dict(vec![
            ("Type".to_string(), Object::Name("Catalog".to_string())),
            ("Pages".to_string(), Object::Ref(rt_oid(2))),
        ]),
    ));
    for i in 0..npages {
        objects.push((
            rt_oid(3 + i),
            Object::Dict(vec![
                ("Type".to_string(), Object::Name("Page".to_string())),
                ("Parent".to_string(), Object::Ref(rt_oid(2))),
            ]),
        ));
    }
    let trailer = vec![("Root".to_string(), Object::Ref(rt_oid(1)))];
    Document {
        objects,
        trailer,
        max_id: 2 + npages,
        version: "1.5".to_string(),
    }
}

fn to_lopdf_obj(o: &Object) -> lopdf::Object {
    match o {
        Object::Null => lopdf::Object::Null,
        Object::Boolean(b) => lopdf::Object::Boolean(*b),
        Object::Integer(i) => lopdf::Object::Integer(*i),
        Object::Real(s) => lopdf::Object::Real(s.parse::<f32>().unwrap_or(0.0)),
        Object::Text(v) => lopdf::Object::String(v.clone(), lopdf::StringFormat::Literal),
        Object::Name(s) => lopdf::Object::Name(s.clone().into_bytes()),
        Object::Array(v) => lopdf::Object::Array(v.iter().map(to_lopdf_obj).collect()),
        Object::Dict(d) => lopdf::Object::Dictionary(to_lopdf_dict(d)),
        Object::Stream(d, c) => {
            lopdf::Object::Stream(lopdf::Stream::new(to_lopdf_dict(d), c.clone()))
        },
        Object::Ref(id) => lopdf::Object::Reference((id.num, id.gen)),
    }
}

fn to_lopdf_dict(d: &Vec<(String, Object)>) -> lopdf::Dictionary {
    let mut out = lopdf::Dictionary::new();
    for (k, v) in d {
        out.set(k.as_bytes().to_vec(), to_lopdf_obj(v));
    }
    out
}

fn to_lopdf_doc(d: &Document) -> lopdf::Document {
    let mut doc = lopdf::Document::with_version(d.version.clone());
    for (id, o) in &d.objects {
        doc.objects.insert((id.num, id.gen), to_lopdf_obj(o));
    }
    for (k, v) in &d.trailer {
        doc.trailer.set(k.as_bytes().to_vec(), to_lopdf_obj(v));
    }
    doc.max_id = d.max_id;
    doc
}

#[test]
fn serialize_and_reparse_keeps_pages() {
    let sources = vec![
        Source { document: rt_sample_doc(5), page_numbers: vec![1, 3, 5] },
        Source { document: rt_sample_doc(4), page_numbers: vec![2, 4] },
    ];
    let out = merge_documents(sources);
    assert!(out.complete);
    assert_eq!(out.page_ids.len(), 5);
    let mut ldoc = to_lopdf_doc(&out.document);
    let mut bytes: Vec<u8> = Vec::new();
    ldoc.save_to(&mut bytes).expect("serialize");
    let parsed = lopdf::Document::load_mem(&bytes).expect("reparse");
    let pages = parsed.get_pages();
    assert_eq!(pages.len(), 5);
    // the page order read back equals the pre-serialization kids order
    let read_ids: Vec<(u32, u16)> = (1..=5u32).map(|n| pages[&n]).collect();
    let kept_ids: Vec<(u32, u16)> = out.page_ids.iter().map(|id| (id.num, id.gen)).collect();
    assert_eq!(read_ids, kept_ids);
    // the outline read back equals what was built: two items, the
    // first titled for the first source and aimed at its first page
    let cat_id = parsed.trailer.get(b"Root").and_then(|o| o.as_reference()).expect("root");
    let cat = parsed.get_object(cat_id).and_then(|o| o.as_dict()).expect("catalog");
    let og = cat.get(b"Outlines").and_then(|o| o.as_reference()).expect("outline ref");
    let outline = parsed.get_object(og).and_then(|o| o.as_dict()).expect("outline root");
    assert_eq!(outline.get(b"Count").and_then(|o| o.as_i64()).expect("count"), 2);
    let first = outline.get(b"First").and_then(|o| o.as_reference()).expect("first");
    let last = outline.get(b"Last").and_then(|o| o.as_reference()).expect("last");
    assert_ne!(first, last);
    let item = parsed.get_object(first).and_then(|o| o.as_dict()).expect("item");
    assert_eq!(item.get(b"Title").and_then(|o| o.as_str()).expect("title"), b"Page_1");
    match item.get(b"Dest").expect("dest") {
        lopdf::Object::Array(a) => match a[0] {
            lopdf::Object::Reference(r) => assert_eq!(r, kept_ids[0]),
            _ => panic!("dest target is not a reference"),
        },
        _ => panic!("dest is not an array"),
    }
}
