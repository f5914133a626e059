//! The object store: one document's ordered mapping from object ids to
//! objects, together with its trailer and declared version.

use vstd::prelude::*;
use crate::object::Object;
use crate::object::ObjectId;

verus! {

/// One PDF document: a flat store of indirect objects, a trailer whose
/// "Root" binding names the Catalog, a declared highest serial number,
/// and a version label. Insertion order of the store is kept; it makes
/// the merged output deterministic.
pub struct Document {
    pub objects: Vec<(ObjectId, Object)>,
    pub trailer: Vec<(String, Object)>,
    pub max_id: u32,
    pub version: String,
}

/// Index of the first entry with id `id` at or after position `i`, or
/// -1 when there is none.
pub open spec fn store_first_index_from(s: Seq<(ObjectId, Object)>, id: ObjectId, i: int) -> int
    decreases s.len() - i,
{
    if i < 0 || i >= s.len() {
        -1
    } else if s[i].0 == id {
        i
    } else {
        store_first_index_from(s, id, i + 1)
    }
}

pub open spec fn store_first_index(s: Seq<(ObjectId, Object)>, id: ObjectId) -> int {
    store_first_index_from(s, id, 0)
}

pub open spec fn store_has(s: Seq<(ObjectId, Object)>, id: ObjectId) -> bool {
    store_first_index(s, id) >= 0
}

/// The object of the first entry with id `id`.
pub open spec fn store_value(s: Seq<(ObjectId, Object)>, id: ObjectId) -> Object
    recommends
        store_has(s, id),
{
    s[store_first_index(s, id)].1
}

/// The ids of a store, in store order.
pub open spec fn store_ids(s: Seq<(ObjectId, Object)>) -> Seq<ObjectId> {
    s.map_values(|e: (ObjectId, Object)| e.0)
}

/// What `store_first_index_from` returns: a position of `id` before
/// which `id` does not occur, or -1 exactly when `id` does not occur.
pub proof fn lemma_store_first_index_from(s: Seq<(ObjectId, Object)>, id: ObjectId, i: int)
    requires
        0 <= i <= s.len(),
    ensures
        store_first_index_from(s, id, i) == -1 ==> forall|j: int|
            i <= j < s.len() ==> s[j].0 != id,
        store_first_index_from(s, id, i) != -1 ==> {
            let r = store_first_index_from(s, id, i);
            &&& i <= r < s.len()
            &&& s[r].0 == id
            &&& forall|j: int| i <= j < r ==> s[j].0 != id
        },
    decreases s.len() - i,
{
    if i < s.len() && s[i].0 != id {
        lemma_store_first_index_from(s, id, i + 1);
    }
}

pub proof fn lemma_store_first_index(s: Seq<(ObjectId, Object)>, id: ObjectId)
    ensures
        !store_has(s, id) ==> forall|j: int| 0 <= j < s.len() ==> s[j].0 != id,
        store_has(s, id) ==> {
            let r = store_first_index(s, id);
            &&& 0 <= r < s.len()
            &&& s[r].0 == id
            &&& forall|j: int| 0 <= j < r ==> s[j].0 != id
        },
{
    lemma_store_first_index_from(s, id, 0);
}

fn store_find_from(s: &Vec<(ObjectId, Object)>, id: ObjectId, i: usize) -> (r: Option<usize>)
    requires
        i <= s@.len(),
    ensures
        store_first_index_from(s@, id, i as int) >= 0 ==> (r matches Some(j) && j as int
            == store_first_index_from(s@, id, i as int)),
        store_first_index_from(s@, id, i as int) < 0 ==> r is None,
    decreases s@.len() - i,
{
    if i >= s.len() {
        None
    } else if s[i].0 == id {
        Some(i)
    } else {
        store_find_from(s, id, i + 1)
    }
}

/// Position of the first entry with id `id`, if any.
pub fn store_find(s: &Vec<(ObjectId, Object)>, id: ObjectId) -> (r: Option<usize>)
    ensures
        store_has(s@, id) ==> (r matches Some(j) && j as int == store_first_index(s@, id)),
        !store_has(s@, id) ==> r is None,
{
    store_find_from(s, id, 0)
}

/// The object stored under `id`, if any.
pub fn store_get<'a>(s: &'a Vec<(ObjectId, Object)>, id: ObjectId) -> (r: Option<&'a Object>)
    ensures
        store_has(s@, id) ==> (r matches Some(o) && *o == store_value(s@, id)),
        !store_has(s@, id) ==> r is None,
{
    proof {
        lemma_store_first_index(s@, id);
    }
    match store_find(s, id) {
        Some(i) => Some(&s[i].1),
        None => None,
    }
}

/// Store `o` under `id`: replace the first entry with that id, or
/// append a new entry when there is none.
pub fn store_insert(s: &mut Vec<(ObjectId, Object)>, id: ObjectId, o: Object)
    ensures
        store_has(old(s)@, id) ==> final(s)@ == old(s)@.update(
            store_first_index(old(s)@, id),
            (id, o),
        ),
        !store_has(old(s)@, id) ==> final(s)@ == old(s)@.push((id, o)),
{
    proof {
        lemma_store_first_index(s@, id);
    }
    match store_find(s, id) {
        Some(i) => {
            let ghost before = s@;
            s.remove(i);
            s.insert(i, (id, o));
            proof {
                assert(s@ =~= before.update(i as int, (id, s@[i as int].1)));
            }
        },
        None => {
            s.push((id, o));
        },
    }
}

/// The ids of a store, in store order, as `store_ids` states them.
pub fn collect_ids(s: &Vec<(ObjectId, Object)>) -> (r: Vec<ObjectId>)
    ensures
        r@ == store_ids(s@),
{
    let mut r: Vec<ObjectId> = Vec::new();
    let mut i: usize = 0;
    while i < s.len()
        invariant
            i <= s@.len(),
            r@ == store_ids(s@.take(i as int)),
        decreases s@.len() - i,
    {
        r.push(s[i].0);
        i = i + 1;
        proof {
            assert(store_ids(s@.take(i as int)) =~= store_ids(s@.take(i - 1)).push(
                s@[i - 1].0,
            ));
        }
    }
    proof {
        assert(s@.take(s@.len() as int) =~= s@);
    }
    r
}

impl Document {
    /// A fresh document with an empty store and an empty trailer.
    pub fn with_version(version: String) -> (r: Document)
        ensures
            r.objects@.len() == 0,
            r.trailer@.len() == 0,
            r.max_id == 0,
            r.version == version,
    {
        Document { objects: Vec::new(), trailer: Vec::new(), max_id: 0, version }
    }
}

} // verus!

verus! {

/// Two stores with the same ids, position for position, agree on every
/// first-entry index.
pub proof fn lemma_store_fi_same_ids(
    a: Seq<(ObjectId, Object)>,
    b: Seq<(ObjectId, Object)>,
    id: ObjectId,
    i: int,
)
    requires
        a.len() == b.len(),
        forall|j: int| 0 <= j < a.len() ==> (#[trigger] a[j]).0 == b[j].0,
    ensures
        store_first_index_from(a, id, i) == store_first_index_from(b, id, i),
    decreases a.len() - i,
{
    if 0 <= i < a.len() && a[i].0 != id {
        lemma_store_fi_same_ids(a, b, id, i + 1);
    }
}

/// How appending one entry moves the first-entry index.
pub proof fn lemma_store_fi_push(
    s: Seq<(ObjectId, Object)>,
    e: (ObjectId, Object),
    id: ObjectId,
    i: int,
)
    requires
        0 <= i <= s.len(),
    ensures
        store_first_index_from(s, id, i) >= 0 ==> store_first_index_from(s.push(e), id, i)
            == store_first_index_from(s, id, i),
        store_first_index_from(s, id, i) < 0 && e.0 == id ==> store_first_index_from(
            s.push(e),
            id,
            i,
        ) == s.len(),
        store_first_index_from(s, id, i) < 0 && e.0 != id ==> store_first_index_from(
            s.push(e),
            id,
            i,
        ) < 0,
    decreases s.len() - i,
{
    if i < s.len() {
        assert(s.push(e)[i] == s[i]);
        if s[i].0 != id {
            lemma_store_fi_push(s, e, id, i + 1);
        }
    } else {
        assert(s.push(e).len() == s.len() + 1);
        assert(s.push(e)[s.len() as int] == e);
        assert(store_first_index_from(s.push(e), id, s.len() as int + 1) == -1);
    }
}

/// What `store_insert` leaves behind: `id` now holds `o`, every other
/// id exactly what it held.
pub proof fn lemma_store_insert_effect(
    pre: Seq<(ObjectId, Object)>,
    post: Seq<(ObjectId, Object)>,
    id: ObjectId,
    o: Object,
)
    requires
        store_has(pre, id) ==> post == pre.update(store_first_index(pre, id), (id, o)),
        !store_has(pre, id) ==> post == pre.push((id, o)),
    ensures
        store_has(post, id),
        store_value(post, id) == o,
        post.len() == pre.len() + if store_has(pre, id) {
            0int
        } else {
            1int
        },
        forall|id2: ObjectId|
            id2 != id ==> #[trigger] store_has(post, id2) == store_has(pre, id2) && (store_has(
                pre,
                id2,
            ) ==> store_value(post, id2) == store_value(pre, id2)),
{
    lemma_store_first_index(pre, id);
    if store_has(pre, id) {
        let fi = store_first_index(pre, id);
        assert forall|id2: ObjectId| true implies store_first_index(post, id2)
            == store_first_index(pre, id2) by {
            lemma_store_fi_same_ids(pre, post, id2, 0);
        }
        lemma_store_first_index(post, id);
        assert forall|id2: ObjectId| id2 != id && store_has(pre, id2) implies store_value(
            post,
            id2,
        ) == store_value(pre, id2) by {
            lemma_store_first_index(pre, id2);
            assert(store_first_index(pre, id2) != fi);
        }
    } else {
        assert forall|id2: ObjectId| true implies #[trigger] store_has(post, id2) == (store_has(
            pre,
            id2,
        ) || id2 == id) by {
            lemma_store_fi_push(pre, (id, o), id2, 0);
        }
        assert forall|id2: ObjectId| store_has(pre, id2) implies store_value(post, id2)
            == store_value(pre, id2) by {
            lemma_store_fi_push(pre, (id, o), id2, 0);
            lemma_store_first_index(pre, id2);
        }
        lemma_store_fi_push(pre, (id, o), id, 0);
    }
}

/// In a store whose ids are the serials `start`, `start + 1`, ... in
/// order, the entry of serial `start + p` stands at position `p`.
pub proof fn lemma_store_sequential_ids(s: Seq<(ObjectId, Object)>, start: int, p: int)
    requires
        1 <= start,
        start + s.len() <= u32::MAX as int + 1,
        forall|j: int|
            0 <= j < s.len() ==> (#[trigger] s[j]).0 == (ObjectId {
                num: (start + j) as u32,
                gen: 0u16,
            }),
        0 <= p < s.len(),
    ensures
        store_has(s, ObjectId { num: (start + p) as u32, gen: 0u16 }),
        store_first_index(s, ObjectId { num: (start + p) as u32, gen: 0u16 }) == p,
        store_value(s, ObjectId { num: (start + p) as u32, gen: 0u16 }) == s[p].1,
{
    let id = ObjectId { num: (start + p) as u32, gen: 0u16 };
    lemma_store_first_index(s, id);
    assert(s[p].0 == id);
    if store_first_index(s, id) == -1 {
        assert(false);
    }
    let f = store_first_index(s, id);
    assert(s[f].0 == id);
    assert((start + f) as u32 == (start + p) as u32);
    assert(start + f <= u32::MAX as int && start + p <= u32::MAX as int);
    assert(f == p);
}

} // verus!

verus! {

/// Take the object stored under `id` out of the store, if any.
pub fn store_remove(s: &mut Vec<(ObjectId, Object)>, id: ObjectId) -> (r: Option<Object>)
    ensures
        store_has(old(s)@, id) ==> (r matches Some(o) && o == store_value(old(s)@, id)
            && final(s)@ == old(s)@.remove(store_first_index(old(s)@, id))),
        !store_has(old(s)@, id) ==> (r is None && final(s)@ == old(s)@),
{
    proof {
        lemma_store_first_index(s@, id);
    }
    match store_find(s, id) {
        Some(i) => Some(s.remove(i).1),
        None => None,
    }
}

} // verus!
