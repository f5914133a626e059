use pdf_merge::merge::{merge_documents, Source};
use pdf_merge::object::{dict_find, dict_get, dict_remove, dict_set};
use pdf_merge::outline::page_title;
use pdf_merge::store::{store_get, store_insert, store_remove};
use pdf_merge::{Document, Object, ObjectId};

fn oid(n: u32) -> ObjectId {
    ObjectId { num: n, gen: 0 }
}

/// A sample source document: catalog at id 1, pages root at id 2,
/// `npages` pages at ids 3.., each carrying a distinguishing marker
/// `base + page index`.
fn sample_doc(npages: u32, base: i64) -> Document {
    let mut objects: Vec<(ObjectId, Object)> = Vec::new();
    let mut kids: Vec<Object> = Vec::new();
    for i in 0..npages {
        kids.push(Object::Ref(oid(3 + i)));
    }
    let pages_dict = vec![
        ("Type".to_string(), Object::Name("Pages".to_string())),
        ("Count".to_string(), Object::Integer(npages as i64)),
        ("Kids".to_string(), Object::Array(kids)),
    ];
    objects.push((oid(2), Object::Dict(pages_dict)));
    let catalog = vec![
        ("Type".to_string(), Object::Name("Catalog".to_string())),
        ("Pages".to_string(), Object::Ref(oid(2))),
    ];
    objects.push((oid(1), Object::Dict(catalog)));
    for i in 0..npages {
        let page = vec![
            ("Type".to_string(), Object::Name("Page".to_string())),
            ("Parent".to_string(), Object::Ref(oid(2))),
            ("Marker".to_string(), Object::Integer(base + i as i64)),
        ];
        objects.push((oid(3 + i), Object::Dict(page)));
    }
    let trailer = vec![("Root".to_string(), Object::Ref(oid(1)))];
    Document {
        objects,
        trailer,
        max_id: 2 + npages,
        version: "1.5".to_string(),
    }
}

fn dict_of(o: &Object) -> &Vec<(String, Object)> {
    match o {
        Object::Dict(d) => d,
        _ => panic!("expected a dictionary"),
    }
}

fn marker_of(doc: &Document, id: ObjectId) -> i64 {
    let o = store_get(&doc.objects, id).expect("page present");
    match dict_get(dict_of(o), &"Marker".to_string()) {
        Some(Object::Integer(m)) => *m,
        _ => panic!("marker missing"),
    }
}

#[test]
fn two_sources_selected_pages() {
    let sources = vec![
        Source { document: sample_doc(5, 100), page_numbers: vec![1, 3, 5] },
        Source { document: sample_doc(4, 200), page_numbers: vec![2, 4] },
    ];
    let out = merge_documents(sources);
    assert!(out.complete);
    assert!(!out.diagnostics.missing_catalog);
    assert!(!out.diagnostics.missing_pages_root);
    assert_eq!(out.diagnostics.missing_pages, vec![]);
    assert_eq!(out.page_ids.len(), 5);
    // order: src1 pages 1,3,5 then src2 pages 2,4
    let markers: Vec<i64> = out.page_ids.iter().map(|id| marker_of(&out.document, *id)).collect();
    assert_eq!(markers, vec![100, 102, 104, 201, 203]);
    // one pages root with Count 5 and the kids in order
    let pid = out.pages_root.expect("pages root");
    let root = dict_of(store_get(&out.document.objects, pid).expect("root present"));
    match dict_get(root, &"Count".to_string()) {
        Some(Object::Integer(c)) => assert_eq!(*c, 5),
        _ => panic!("count missing"),
    }
    match dict_get(root, &"Kids".to_string()) {
        Some(Object::Array(kids)) => {
            assert_eq!(kids.len(), 5);
            for (i, k) in kids.iter().enumerate() {
                match k {
                    Object::Ref(r) => assert_eq!(*r, out.page_ids[i]),
                    _ => panic!("kid is not a reference"),
                }
            }
        },
        _ => panic!("kids missing"),
    }
    // the trailer names the one catalog, which names the pages root
    let cid = out.catalog.expect("catalog");
    match dict_get(&out.document.trailer, &"Root".to_string()) {
        Some(Object::Ref(r)) => assert_eq!(*r, cid),
        _ => panic!("trailer root missing"),
    }
    let cat = dict_of(store_get(&out.document.objects, cid).expect("catalog present"));
    match dict_get(cat, &"Pages".to_string()) {
        Some(Object::Ref(r)) => assert_eq!(*r, pid),
        _ => panic!("catalog pages missing"),
    }
    // two bookmarks, one per source, anchored at each source's first page
    let og = out.outline_root.expect("outline root");
    let outline = dict_of(store_get(&out.document.objects, og).expect("outline present"));
    match dict_get(outline, &"Count".to_string()) {
        Some(Object::Integer(c)) => assert_eq!(*c, 2),
        _ => panic!("outline count missing"),
    }
    let first = match dict_get(outline, &"First".to_string()) {
        Some(Object::Ref(r)) => *r,
        _ => panic!("outline first missing"),
    };
    let item = dict_of(store_get(&out.document.objects, first).expect("item present"));
    match dict_get(item, &"Title".to_string()) {
        Some(Object::Text(t)) => assert_eq!(t, &b"Page_1".to_vec()),
        _ => panic!("title missing"),
    }
    match dict_get(item, &"Dest".to_string()) {
        Some(Object::Array(a)) => match &a[0] {
            Object::Ref(r) => assert_eq!(*r, out.page_ids[0]),
            _ => panic!("dest is not a reference"),
        },
        _ => panic!("dest missing"),
    }
}

#[test]
fn single_valid_page() {
    let sources = vec![Source { document: sample_doc(1, 10), page_numbers: vec![1] }];
    let out = merge_documents(sources);
    assert!(out.complete);
    assert_eq!(out.page_ids.len(), 1);
    let pid = out.pages_root.unwrap();
    let page = dict_of(store_get(&out.document.objects, out.page_ids[0]).expect("page"));
    match dict_get(page, &"Parent".to_string()) {
        Some(Object::Ref(r)) => assert_eq!(*r, pid),
        _ => panic!("parent missing"),
    }
    let root = dict_of(store_get(&out.document.objects, pid).expect("root"));
    match dict_get(root, &"Count".to_string()) {
        Some(Object::Integer(c)) => assert_eq!(*c, 1),
        _ => panic!("count missing"),
    }
}

#[test]
fn missing_page_is_skipped_not_fatal() {
    let sources = vec![Source { document: sample_doc(3, 50), page_numbers: vec![1, 999] }];
    let out = merge_documents(sources);
    assert!(out.complete);
    assert_eq!(out.page_ids.len(), 1);
    assert_eq!(marker_of(&out.document, out.page_ids[0]), 50);
    assert_eq!(out.diagnostics.missing_pages, vec![(0usize, 999u32)]);
}

#[test]
fn duplicate_requests_keep_duplicates() {
    let sources = vec![Source { document: sample_doc(2, 70), page_numbers: vec![1, 1] }];
    let out = merge_documents(sources);
    assert!(out.complete);
    assert_eq!(out.page_ids.len(), 2);
    assert_eq!(out.page_ids[0], out.page_ids[1]);
}

#[test]
fn source_outlines_are_dropped() {
    let mut doc = sample_doc(2, 30);
    let next = doc.max_id + 1;
    doc.objects.push((
        oid(next),
        Object::Dict(vec![
            ("Type".to_string(), Object::Name("Outlines".to_string())),
            ("Count".to_string(), Object::Integer(0)),
        ]),
    ));
    doc.objects.push((
        oid(next + 1),
        Object::Dict(vec![("Type".to_string(), Object::Name("Outline".to_string()))]),
    ));
    doc.max_id = next + 1;
    let sources = vec![Source { document: doc, page_numbers: vec![1] }];
    let out = merge_documents(sources);
    assert!(out.complete);
    let og = out.outline_root.expect("fresh outline");
    let mut outlines = 0;
    for (id, o) in &out.document.objects {
        if let Object::Dict(d) = o {
            if let Some(Object::Name(n)) = dict_get(d, &"Type".to_string()) {
                assert_ne!(n, "Outline");
                if n == "Outlines" {
                    outlines += 1;
                    assert_eq!(*id, og);
                }
            }
        }
    }
    assert_eq!(outlines, 1);
}

#[test]
fn no_catalog_degrades_gracefully() {
    let mut doc = sample_doc(2, 40);
    // drop the catalog object; the trailer's Root dangles
    doc.objects.retain(|(id, _)| *id != oid(1));
    let sources = vec![Source { document: doc, page_numbers: vec![1] }];
    let out = merge_documents(sources);
    assert!(!out.complete);
    assert!(out.diagnostics.missing_catalog);
    assert!(out.catalog.is_none());
    assert!(out.outline_root.is_none());
    assert_eq!(out.page_ids.len(), 0);
}

#[test]
fn no_sources_degrade() {
    let out = merge_documents(vec![]);
    assert!(!out.complete);
    assert!(out.diagnostics.missing_catalog);
    assert!(out.diagnostics.missing_pages_root);
    assert_eq!(out.document.objects.len(), 0);
}

#[test]
fn empty_page_list_contributes_no_bookmark() {
    let sources = vec![
        Source { document: sample_doc(2, 10), page_numbers: vec![1] },
        Source { document: sample_doc(2, 20), page_numbers: vec![] },
    ];
    let out = merge_documents(sources);
    assert!(out.complete);
    assert_eq!(out.page_ids.len(), 1);
    let og = out.outline_root.expect("outline");
    let outline = dict_of(store_get(&out.document.objects, og).expect("outline present"));
    match dict_get(outline, &"Count".to_string()) {
        Some(Object::Integer(c)) => assert_eq!(*c, 1),
        _ => panic!("outline count missing"),
    }
}

#[test]
fn inherited_outline_link_is_unset_without_bookmarks() {
    // a source catalog pointing at its own outline; no pages requested,
    // so no fresh outline is built and the link must not survive
    let mut doc = sample_doc(1, 90);
    let next = doc.max_id + 1;
    doc.objects.push((
        oid(next),
        Object::Dict(vec![("Type".to_string(), Object::Name("Outlines".to_string()))]),
    ));
    match &mut doc.objects[1].1 {
        Object::Dict(d) => {
            dict_set(d, "Outlines".to_string(), Object::Ref(oid(next)));
        },
        _ => panic!("catalog is not a dictionary"),
    }
    doc.max_id = next;
    let sources = vec![Source { document: doc, page_numbers: vec![] }];
    let out = merge_documents(sources);
    assert!(out.complete);
    assert!(out.outline_root.is_none());
    let cid = out.catalog.expect("catalog");
    let cat = dict_of(store_get(&out.document.objects, cid).expect("catalog present"));
    assert!(dict_get(cat, &"Outlines".to_string()).is_none());
}

#[test]
fn kids_held_as_indirect_array_are_walked() {
    // the Pages root's Kids is a reference to a separate array object
    let mut objects: Vec<(ObjectId, Object)> = Vec::new();
    objects.push((
        oid(2),
        Object::Dict(vec![
            ("Type".to_string(), Object::Name("Pages".to_string())),
            ("Count".to_string(), Object::Integer(2)),
            ("Kids".to_string(), Object::Ref(oid(5))),
        ]),
    ));
    objects.push((
        oid(1),
        Object::Dict(vec![
            ("Type".to_string(), Object::Name("Catalog".to_string())),
            ("Pages".to_string(), Object::Ref(oid(2))),
        ]),
    ));
    for i in 0..2u32 {
        objects.push((
            oid(3 + i),
            Object::Dict(vec![
                ("Type".to_string(), Object::Name("Page".to_string())),
                ("Parent".to_string(), Object::Ref(oid(2))),
                ("Marker".to_string(), Object::Integer(500 + i as i64)),
            ]),
        ));
    }
    objects.push((
        oid(5),
        Object::Array(vec![Object::Ref(oid(3)), Object::Ref(oid(4))]),
    ));
    let doc = Document {
        objects,
        trailer: vec![("Root".to_string(), Object::Ref(oid(1)))],
        max_id: 5,
        version: "1.5".to_string(),
    };
    let out = merge_documents(vec![Source { document: doc, page_numbers: vec![2, 1] }]);
    assert!(out.complete);
    assert_eq!(out.diagnostics.missing_pages, vec![]);
    assert_eq!(out.page_ids.len(), 2);
    let markers: Vec<i64> = out.page_ids.iter().map(|id| marker_of(&out.document, *id)).collect();
    assert_eq!(markers, vec![501, 500]);
}

#[test]
fn renumber_relabels_contiguously() {
    let mut doc = sample_doc(2, 5);
    doc.renumber(10);
    let ids: Vec<u32> = doc.objects.iter().map(|(id, _)| id.num).collect();
    assert_eq!(ids, vec![10, 11, 12, 13]);
    assert_eq!(doc.max_id, 13);
    // the trailer's Root follows the catalog to its new id
    match dict_get(&doc.trailer, &"Root".to_string()) {
        Some(Object::Ref(r)) => {
            let cat = dict_of(store_get(&doc.objects, *r).expect("catalog"));
            match dict_get(cat, &"Type".to_string()) {
                Some(Object::Name(n)) => assert_eq!(n, "Catalog"),
                _ => panic!("catalog type missing"),
            }
        },
        _ => panic!("root missing"),
    }
}

#[test]
fn dictionary_first_binding_semantics() {
    let mut d: Vec<(String, Object)> = Vec::new();
    dict_set(&mut d, "A".to_string(), Object::Integer(1));
    dict_set(&mut d, "B".to_string(), Object::Integer(2));
    dict_set(&mut d, "A".to_string(), Object::Integer(3));
    assert_eq!(d.len(), 2);
    match dict_get(&d, &"A".to_string()) {
        Some(Object::Integer(v)) => assert_eq!(*v, 3),
        _ => panic!("A missing"),
    }
    assert_eq!(dict_find(&d, &"B".to_string()), Some(1));
    dict_remove(&mut d, &"A".to_string());
    assert!(dict_get(&d, &"A".to_string()).is_none());
    assert_eq!(d.len(), 1);
}

#[test]
fn decimal_titles() {
    assert_eq!(page_title(1), b"Page_1".to_vec());
    assert_eq!(page_title(12), b"Page_12".to_vec());
    assert_eq!(page_title(305), b"Page_305".to_vec());
}

#[test]
fn store_access_semantics() {
    let mut s: Vec<(ObjectId, Object)> = Vec::new();
    store_insert(&mut s, oid(4), Object::Integer(7));
    store_insert(&mut s, oid(9), Object::Boolean(true));
    store_insert(&mut s, oid(4), Object::Integer(8));
    assert_eq!(s.len(), 2);
    match store_get(&s, oid(4)) {
        Some(Object::Integer(v)) => assert_eq!(*v, 8),
        _ => panic!("id 4 missing"),
    }
    assert!(store_get(&s, oid(5)).is_none());
    match store_remove(&mut s, oid(4)) {
        Some(Object::Integer(v)) => assert_eq!(v, 8),
        _ => panic!("remove failed"),
    }
    assert!(store_get(&s, oid(4)).is_none());
    assert_eq!(s.len(), 1);
}
