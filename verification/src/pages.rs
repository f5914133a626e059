//! Page extraction: resolving a document's page tree to the ordered
//! list of its leaf page ids, and resolving requested 1-based page
//! numbers against that list. Requested numbers with no page are
//! skipped and reported, never fatal.

use vstd::prelude::*;
use crate::object::Object;
use crate::object::ObjectId;
use crate::object::dict_get;
use crate::object::dict_has;
use crate::object::dict_value;
use crate::object::lemma_dict_first_index;
use crate::object::spec_type_of;
use crate::object::type_of;
use crate::store::Document;
use crate::store::store_get;
use crate::store::store_has;
use crate::store::store_value;

verus! {

/// The leaf page ids beneath the node `id`, in reading order. `fuel`
/// bounds the walk, so that a malformed, cyclic page tree yields a
/// finite (possibly truncated) list instead of failing; a well-formed
/// tree of `n` objects is fully walked by any fuel above its depth,
/// in particular by `n + 1`.
pub open spec fn spec_pages_from(objs: Seq<(ObjectId, Object)>, id: ObjectId, fuel: nat) -> Seq<
    ObjectId,
>
    decreases fuel, 0nat,
{
    if fuel == 0 {
        Seq::empty()
    } else if !store_has(objs, id) {
        Seq::empty()
    } else {
        match store_value(objs, id) {
            Object::Dict(d) => {
                if crate::object::spec_dict_type(d@) == Some("Page"@) {
                    seq![id]
                } else if crate::object::spec_dict_type(d@) == Some("Pages"@) {
                    if dict_has(d@, "Kids"@) {
                        match dict_value(d@, "Kids"@) {
                            Object::Array(kids) => spec_kids_pages(
                                objs,
                                kids@,
                                0,
                                (fuel - 1) as nat,
                            ),
                            Object::Ref(r) => {
                                if store_has(objs, r) {
                                    match store_value(objs, r) {
                                        Object::Array(kids) => spec_kids_pages(
                                            objs,
                                            kids@,
                                            0,
                                            (fuel - 1) as nat,
                                        ),
                                        _ => Seq::empty(),
                                    }
                                } else {
                                    Seq::empty()
                                }
                            },
                            _ => Seq::empty(),
                        }
                    } else {
                        Seq::empty()
                    }
                } else {
                    Seq::empty()
                }
            },
            _ => Seq::empty(),
        }
    }
}

/// The leaf page ids beneath the kid entries from position `i` on.
/// Entries that are not references contribute nothing.
pub open spec fn spec_kids_pages(
    objs: Seq<(ObjectId, Object)>,
    kids: Seq<Object>,
    i: int,
    fuel: nat,
) -> Seq<ObjectId>
    decreases fuel, kids.len() - i + 1,
{
    if i < 0 || i >= kids.len() {
        Seq::empty()
    } else {
        let head = match kids[i] {
            Object::Ref(r) => spec_pages_from(objs, r, fuel),
            _ => Seq::empty(),
        };
        head + spec_kids_pages(objs, kids, i + 1, fuel)
    }
}

fn pages_from(objs: &Vec<(ObjectId, Object)>, id: ObjectId, fuel: usize) -> (r: Vec<ObjectId>)
    ensures
        r@ == spec_pages_from(objs@, id, fuel as nat),
    decreases fuel, 0nat,
{
    if fuel == 0 {
        return Vec::new();
    }
    let o = match store_get(objs, id) {
        Some(o) => o,
        None => { return Vec::new(); },
    };
    let d = match o {
        Object::Dict(d) => d,
        _ => { return Vec::new(); },
    };
    let is_page = match type_of(o) {
        Some(t) => *t == "Page".to_string(),
        None => false,
    };
    if is_page {
        let mut r = Vec::new();
        r.push(id);
        proof {
            assert(r@ =~= seq![id]);
        }
        return r;
    }
    let is_pages = match type_of(o) {
        Some(t) => *t == "Pages".to_string(),
        None => false,
    };
    if !is_pages {
        return Vec::new();
    }
    match dict_get(d, &"Kids".to_string()) {
        Some(Object::Array(kids)) => kids_pages(objs, kids, 0, fuel - 1),
        Some(Object::Ref(r)) => {
            // a Kids array held as its own indirect object
            match store_get(objs, *r) {
                Some(Object::Array(kids)) => kids_pages(objs, kids, 0, fuel - 1),
                _ => Vec::new(),
            }
        },
        _ => Vec::new(),
    }
}

fn kids_pages(objs: &Vec<(ObjectId, Object)>, kids: &Vec<Object>, i: usize, fuel: usize) -> (r:
    Vec<ObjectId>)
    requires
        i <= kids@.len(),
    ensures
        r@ == spec_kids_pages(objs@, kids@, i as int, fuel as nat),
    decreases fuel, kids@.len() - i + 1,
{
    if i >= kids.len() {
        return Vec::new();
    }
    let mut head = match &kids[i] {
        Object::Ref(r) => pages_from(objs, *r, fuel),
        _ => Vec::new(),
    };
    let mut rest = kids_pages(objs, kids, i + 1, fuel);
    head.append(&mut rest);
    head
}

/// The ordered list of leaf page ids of `doc`: from the trailer's Root
/// reference through the Catalog's Pages reference, then the walk of
/// the page tree. Empty when any link of that chain is absent.
pub open spec fn spec_page_ids(doc: Document) -> Seq<ObjectId> {
    if dict_has(doc.trailer@, "Root"@) {
        match dict_value(doc.trailer@, "Root"@) {
            Object::Ref(c) => {
                if store_has(doc.objects@, c) {
                    match store_value(doc.objects@, c) {
                        Object::Dict(cd) => {
                            if dict_has(cd@, "Pages"@) {
                                match dict_value(cd@, "Pages"@) {
                                    Object::Ref(p) => spec_pages_from(
                                        doc.objects@,
                                        p,
                                        doc.objects@.len() + 1,
                                    ),
                                    _ => Seq::empty(),
                                }
                            } else {
                                Seq::empty()
                            }
                        },
                        _ => Seq::empty(),
                    }
                } else {
                    Seq::empty()
                }
            },
            _ => Seq::empty(),
        }
    } else {
        Seq::empty()
    }
}

/// The ordered page-number → id mapping of `doc`, as a list whose
/// position `n - 1` holds the id of page `n`.
pub fn page_ids(doc: &Document) -> (r: Vec<ObjectId>)
    requires
        doc.objects@.len() < usize::MAX,
    ensures
        r@ == spec_page_ids(*doc),
{
    let root = match dict_get(&doc.trailer, &"Root".to_string()) {
        Some(Object::Ref(c)) => *c,
        _ => { return Vec::new(); },
    };
    let catalog = match store_get(&doc.objects, root) {
        Some(Object::Dict(cd)) => cd,
        _ => { return Vec::new(); },
    };
    let pages_root = match dict_get(catalog, &"Pages".to_string()) {
        Some(Object::Ref(p)) => *p,
        _ => { return Vec::new(); },
    };
    pages_from(&doc.objects, pages_root, doc.objects.len() + 1)
}

/// The requested numbers that resolve, mapped to their page ids, in
/// requested order; duplicates kept.
pub open spec fn spec_resolved_from(plist: Seq<ObjectId>, req: Seq<u32>, i: int) -> Seq<ObjectId>
    decreases req.len() - i,
{
    if i < 0 || i >= req.len() {
        Seq::empty()
    } else {
        let rest = spec_resolved_from(plist, req, i + 1);
        if 1 <= req[i] && req[i] <= plist.len() {
            seq![plist[req[i] - 1]] + rest
        } else {
            rest
        }
    }
}

/// The requested numbers that resolve to no page, in requested order.
pub open spec fn spec_missing_from(plist: Seq<ObjectId>, req: Seq<u32>, i: int) -> Seq<u32>
    decreases req.len() - i,
{
    if i < 0 || i >= req.len() {
        Seq::empty()
    } else {
        let rest = spec_missing_from(plist, req, i + 1);
        if 1 <= req[i] && req[i] <= plist.len() {
            rest
        } else {
            seq![req[i]] + rest
        }
    }
}

/// Resolve the requested 1-based page numbers against the page list
/// `plist`: the ids of those that resolve, in requested order with
/// duplicates kept, and the numbers of those that do not.
pub fn resolve_requests(plist: &Vec<ObjectId>, req: &Vec<u32>) -> (r: (Vec<ObjectId>, Vec<u32>))
    ensures
        r.0@ == spec_resolved_from(plist@, req@, 0),
        r.1@ == spec_missing_from(plist@, req@, 0),
{
    resolve_from(plist, req, 0)
}

fn resolve_from(plist: &Vec<ObjectId>, req: &Vec<u32>, i: usize) -> (r: (Vec<ObjectId>, Vec<u32>))
    requires
        i <= req@.len(),
    ensures
        r.0@ == spec_resolved_from(plist@, req@, i as int),
        r.1@ == spec_missing_from(plist@, req@, i as int),
    decreases req@.len() - i,
{
    if i >= req.len() {
        return (Vec::new(), Vec::new());
    }
    let (mut ids, mut miss) = resolve_from(plist, req, i + 1);
    let n = req[i];
    if 1 <= n && n as usize <= plist.len() {
        let ghost before = ids@;
        ids.insert(0, plist[n as usize - 1]);
        proof {
            assert(ids@ =~= seq![plist@[n - 1]] + before);
        }
    } else {
        let ghost before = miss@;
        miss.insert(0, n);
        proof {
            assert(miss@ =~= seq![n] + before);
        }
    }
    (ids, miss)
}

} // verus!

verus! {

/// Every id the page walk yields addresses a present dictionary of
/// declared type "Page".
pub proof fn lemma_pages_from_typed(objs: Seq<(ObjectId, Object)>, id: ObjectId, fuel: nat)
    ensures
        forall|x: ObjectId| #[trigger] spec_pages_from(objs, id, fuel).contains(x) ==> store_has(
            objs,
            x,
        ) && (store_value(objs, x) matches Object::Dict(d) && crate::object::spec_dict_type(d@)
            == Some("Page"@)),
    decreases fuel, 0nat,
{
    if fuel > 0 && store_has(objs, id) {
        match store_value(objs, id) {
            Object::Dict(d) => {
                if crate::object::spec_dict_type(d@) == Some("Page"@) {
                } else if crate::object::spec_dict_type(d@) == Some("Pages"@) {
                    if dict_has(d@, "Kids"@) {
                        match dict_value(d@, "Kids"@) {
                            Object::Array(kids) => {
                                lemma_kids_pages_typed(objs, kids@, 0, (fuel - 1) as nat);
                                assert(spec_pages_from(objs, id, fuel) == spec_kids_pages(
                                    objs,
                                    kids@,
                                    0,
                                    (fuel - 1) as nat,
                                ));
                                assert forall|x: ObjectId| #[trigger] spec_pages_from(
                                    objs,
                                    id,
                                    fuel,
                                ).contains(x) implies store_has(objs, x) && (store_value(objs, x)
                                    matches Object::Dict(dd) && crate::object::spec_dict_type(dd@)
                                    == Some("Page"@)) by {
                                    assert(spec_kids_pages(
                                        objs,
                                        kids@,
                                        0,
                                        (fuel - 1) as nat,
                                    ).contains(x));
                                }
                            },
                            Object::Ref(r) => {
                                if store_has(objs, r) {
                                    match store_value(objs, r) {
                                        Object::Array(kids) => {
                                            lemma_kids_pages_typed(
                                                objs,
                                                kids@,
                                                0,
                                                (fuel - 1) as nat,
                                            );
                                            assert(spec_pages_from(objs, id, fuel)
                                                == spec_kids_pages(
                                                objs,
                                                kids@,
                                                0,
                                                (fuel - 1) as nat,
                                            ));
                                            assert forall|x: ObjectId| #[trigger] spec_pages_from(
                                                objs,
                                                id,
                                                fuel,
                                            ).contains(x) implies store_has(objs, x) && (
                                            store_value(objs, x) matches Object::Dict(dd)
                                                && crate::object::spec_dict_type(dd@) == Some(
                                                "Page"@,
                                            )) by {
                                                assert(spec_kids_pages(
                                                    objs,
                                                    kids@,
                                                    0,
                                                    (fuel - 1) as nat,
                                                ).contains(x));
                                            }
                                        },
                                        _ => {},
                                    }
                                }
                            },
                            _ => {},
                        }
                    }
                }
            },
            _ => {},
        }
    }
}

pub proof fn lemma_kids_pages_typed(
    objs: Seq<(ObjectId, Object)>,
    kids: Seq<Object>,
    i: int,
    fuel: nat,
)
    ensures
        forall|x: ObjectId| #[trigger] spec_kids_pages(objs, kids, i, fuel).contains(x)
            ==> store_has(objs, x) && (store_value(objs, x) matches Object::Dict(d)
            && crate::object::spec_dict_type(d@) == Some("Page"@)),
    decreases fuel, kids.len() - i + 1,
{
    if 0 <= i < kids.len() {
        match kids[i] {
            Object::Ref(r) => {
                lemma_pages_from_typed(objs, r, fuel);
            },
            _ => {},
        }
        lemma_kids_pages_typed(objs, kids, i + 1, fuel);
        assert forall|x: ObjectId| #[trigger] spec_kids_pages(objs, kids, i, fuel).contains(x)
            implies store_has(objs, x) && (store_value(objs, x) matches Object::Dict(d)
            && crate::object::spec_dict_type(d@) == Some("Page"@)) by {
            let head = match kids[i] {
                Object::Ref(r) => spec_pages_from(objs, r, fuel),
                _ => Seq::empty(),
            };
            let whole = head + spec_kids_pages(objs, kids, i + 1, fuel);
            assert(spec_kids_pages(objs, kids, i, fuel) == whole);
            let j = choose|j: int|
                0 <= j < whole.len() && whole[j] == x;
            if j < head.len() {
                assert(head.contains(x));
            } else {
                assert(spec_kids_pages(objs, kids, i + 1, fuel)[j - head.len()] == x);
                assert(spec_kids_pages(objs, kids, i + 1, fuel).contains(x));
            }
        }
    }
}

/// Every id that the resolution of requests yields is an element of
/// the page list.
pub proof fn lemma_resolved_elements(plist: Seq<ObjectId>, req: Seq<u32>, i: int)
    ensures
        forall|x: ObjectId| #[trigger] spec_resolved_from(plist, req, i).contains(x)
            ==> plist.contains(x),
    decreases req.len() - i,
{
    if 0 <= i < req.len() {
        lemma_resolved_elements(plist, req, i + 1);
        assert forall|x: ObjectId| #[trigger] spec_resolved_from(plist, req, i).contains(x)
            implies plist.contains(x) by {
            let rest = spec_resolved_from(plist, req, i + 1);
            if 1 <= req[i] && req[i] <= plist.len() {
                let whole = seq![plist[req[i] - 1]] + rest;
                assert(spec_resolved_from(plist, req, i) == whole);
                let j = choose|j: int| 0 <= j < whole.len() && whole[j] == x;
                if j == 0 {
                    assert(plist[req[i] - 1] == x);
                } else {
                    assert(rest[j - 1] == x);
                    assert(rest.contains(x));
                }
            }
        }
    }
}

} // verus!

verus! {

/// Every id in a document's page list addresses a present dictionary
/// of declared type "Page".
pub proof fn lemma_page_ids_elements(doc: Document)
    ensures
        forall|x: ObjectId| #[trigger] spec_page_ids(doc).contains(x) ==> store_has(
            doc.objects@,
            x,
        ) && (store_value(doc.objects@, x) matches Object::Dict(d)
            && crate::object::spec_dict_type(d@) == Some("Page"@)),
{
    if dict_has(doc.trailer@, "Root"@) {
        match dict_value(doc.trailer@, "Root"@) {
            Object::Ref(c) => {
                if store_has(doc.objects@, c) {
                    match store_value(doc.objects@, c) {
                        Object::Dict(cd) => {
                            if dict_has(cd@, "Pages"@) {
                                match dict_value(cd@, "Pages"@) {
                                    Object::Ref(p) => {
                                        lemma_pages_from_typed(
                                            doc.objects@,
                                            p,
                                            doc.objects@.len() + 1,
                                        );
                                    },
                                    _ => {},
                                }
                            }
                        },
                        _ => {},
                    }
                }
            },
            _ => {},
        }
    }
}

} // verus!

verus! {

/// No more pages resolve than were requested.
pub proof fn lemma_resolved_len(plist: Seq<ObjectId>, req: Seq<u32>, i: int)
    requires
        0 <= i <= req.len(),
    ensures
        spec_resolved_from(plist, req, i).len() <= req.len() - i,
    decreases req.len() - i,
{
    if i < req.len() {
        lemma_resolved_len(plist, req, i + 1);
    }
}

} // verus!
