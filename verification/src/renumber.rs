//! Renumbering: a pure relabeling of every object id in a document so
//! that serials start at a chosen value and increase contiguously in
//! store order. Every reference inside every object and in the trailer
//! is rewritten to match; nothing else changes.

use vstd::prelude::*;
use crate::object::Object;
use crate::object::ObjectId;
use crate::store::Document;
use crate::store::store_ids;

verus! {

/// Index of the first occurrence of `id` at or after position `i`, or
/// -1 when there is none.
pub open spec fn id_first_index_from(ids: Seq<ObjectId>, id: ObjectId, i: int) -> int
    decreases ids.len() - i,
{
    if i < 0 || i >= ids.len() {
        -1
    } else if ids[i] == id {
        i
    } else {
        id_first_index_from(ids, id, i + 1)
    }
}

pub open spec fn id_first_index(ids: Seq<ObjectId>, id: ObjectId) -> int {
    id_first_index_from(ids, id, 0)
}

/// Where renumbering with ids `ids` and first serial `start` sends the
/// id `id`: the id whose serial is `start` plus the position of `id`,
/// generation zero; or nowhere, when `id` is not in `ids`. A reference
/// to an id that is nowhere is a defect of the source; it is rewritten
/// to Null.
pub open spec fn renum_id(ids: Seq<ObjectId>, start: int, id: ObjectId) -> Option<ObjectId> {
    let i = id_first_index(ids, id);
    if i >= 0 {
        Some(ObjectId { num: (start + i) as u32, gen: 0u16 })
    } else {
        None
    }
}

pub proof fn lemma_id_first_index_from(ids: Seq<ObjectId>, id: ObjectId, i: int)
    requires
        0 <= i <= ids.len(),
    ensures
        id_first_index_from(ids, id, i) == -1 ==> forall|j: int|
            i <= j < ids.len() ==> ids[j] != id,
        id_first_index_from(ids, id, i) != -1 ==> {
            let r = id_first_index_from(ids, id, i);
            &&& i <= r < ids.len()
            &&& ids[r] == id
            &&& forall|j: int| i <= j < r ==> ids[j] != id
        },
    decreases ids.len() - i,
{
    if i < ids.len() && ids[i] != id {
        lemma_id_first_index_from(ids, id, i + 1);
    }
}

fn id_find_from(ids: &Vec<ObjectId>, id: ObjectId, i: usize) -> (r: Option<usize>)
    requires
        i <= ids@.len(),
    ensures
        id_first_index_from(ids@, id, i as int) >= 0 ==> (r matches Some(j) && j as int
            == id_first_index_from(ids@, id, i as int)),
        id_first_index_from(ids@, id, i as int) < 0 ==> r is None,
    decreases ids@.len() - i,
{
    if i >= ids.len() {
        None
    } else if ids[i] == id {
        Some(i)
    } else {
        id_find_from(ids, id, i + 1)
    }
}

/// The renumbered image of `id`, as `renum_id` states it.
pub fn map_id(ids: &Vec<ObjectId>, start: u32, id: ObjectId) -> (r: Option<ObjectId>)
    requires
        start as int + ids@.len() <= u32::MAX as int,
    ensures
        r == renum_id(ids@, start as int, id),
{
    proof {
        lemma_id_first_index_from(ids@, id, 0);
    }
    match id_find_from(ids, id, 0) {
        Some(i) => Some(ObjectId { num: start + i as u32, gen: 0u16 }),
        None => None,
    }
}

/// `b` is `a` with every id relabeled by `renum_id(ids, start, _)`:
/// the same value shape for shape, references rewritten, dangling
/// references turned into Null.
pub open spec fn obj_renumbered(ids: Seq<ObjectId>, start: int, a: Object, b: Object) -> bool
    decreases a,
{
    match a {
        Object::Null => b == Object::Null,
        Object::Boolean(x) => b == Object::Boolean(x),
        Object::Integer(x) => b == Object::Integer(x),
        Object::Real(x) => (b matches Object::Real(y) && x@ == y@),
        Object::Text(x) => (b matches Object::Text(y) && x@ == y@),
        Object::Name(x) => (b matches Object::Name(y) && x@ == y@),
        Object::Array(x) => (b matches Object::Array(y) && {
            &&& x@.len() == y@.len()
            &&& forall|i: int|
                0 <= i < x@.len() ==> obj_renumbered(ids, start, #[trigger] x@[i], y@[i])
        }),
        Object::Dict(x) => (b matches Object::Dict(y) && dict_renumbered(ids, start, x@, y@)),
        Object::Stream(x, p) => (b matches Object::Stream(y, q) && {
            &&& dict_renumbered(ids, start, x@, y@)
            &&& p@ == q@
        }),
        Object::Ref(r) => match renum_id(ids, start, r) {
            Some(n) => b == Object::Ref(n),
            None => b == Object::Null,
        },
    }
}

/// `b` is the dictionary `a` with every value relabeled; keys and
/// binding order are kept.
pub open spec fn dict_renumbered(
    ids: Seq<ObjectId>,
    start: int,
    a: Seq<(String, Object)>,
    b: Seq<(String, Object)>,
) -> bool
    decreases a,
{
    &&& a.len() == b.len()
    &&& forall|i: int|
        0 <= i < a.len() ==> (#[trigger] a[i]).0@ == b[i].0@ && obj_renumbered(
            ids,
            start,
            a[i].1,
            b[i].1,
        )
}

/// A copy of a byte payload.
pub fn clone_bytes(v: &Vec<u8>) -> (r: Vec<u8>)
    ensures
        r@ == v@,
{
    let mut r: Vec<u8> = Vec::new();
    let mut i: usize = 0;
    while i < v.len()
        invariant
            i <= v@.len(),
            r@ =~= v@.take(i as int),
        decreases v@.len() - i,
    {
        r.push(v[i]);
        i = i + 1;
    }
    proof {
        assert(v@.take(v@.len() as int) =~= v@);
    }
    r
}

/// The object `o` with every id relabeled, as `obj_renumbered` states.
fn rw_obj(o: &Object, ids: &Vec<ObjectId>, start: u32) -> (r: Object)
    requires
        start as int + ids@.len() <= u32::MAX as int,
    ensures
        obj_renumbered(ids@, start as int, *o, r),
    decreases *o,
{
    match o {
        Object::Null => Object::Null,
        Object::Boolean(x) => Object::Boolean(*x),
        Object::Integer(x) => Object::Integer(*x),
        Object::Real(x) => Object::Real(x.clone()),
        Object::Text(x) => Object::Text(clone_bytes(x)),
        Object::Name(x) => Object::Name(x.clone()),
        Object::Array(x) => {
            let mut out: Vec<Object> = Vec::new();
            let mut i: usize = 0;
            while i < x.len()
                invariant
                    *o == Object::Array(*x),
                    i <= x@.len(),
                    out@.len() == i,
                    forall|j: int|
                        0 <= j < i ==> obj_renumbered(
                            ids@,
                            start as int,
                            #[trigger] x@[j],
                            out@[j],
                        ),
                    start as int + ids@.len() <= u32::MAX as int,
                decreases x@.len() - i,
            {
                proof {
                    assert(decreases_to!(*o => o->Array_0));
                    assert(decreases_to!(o->Array_0 => o->Array_0@));
                    assert(decreases_to!(o->Array_0@ => o->Array_0@[i as int]));
                    assert(o->Array_0@[i as int] == x@[i as int]);
                }
                out.push(rw_obj(&x[i], ids, start));
                i = i + 1;
            }
            Object::Array(out)
        },
        Object::Dict(x) => Object::Dict(rw_dict(x, ids, start)),
        Object::Stream(x, p) => Object::Stream(rw_dict(x, ids, start), clone_bytes(p)),
        Object::Ref(rid) => match map_id(ids, start, *rid) {
            Some(n) => Object::Ref(n),
            None => Object::Null,
        },
    }
}

/// The dictionary `d` with every value relabeled, as `dict_renumbered`
/// states.
fn rw_dict(d: &Vec<(String, Object)>, ids: &Vec<ObjectId>, start: u32) -> (r: Vec<
    (String, Object),
>)
    requires
        start as int + ids@.len() <= u32::MAX as int,
    ensures
        dict_renumbered(ids@, start as int, d@, r@),
    decreases d@,
{
    let mut out: Vec<(String, Object)> = Vec::new();
    let mut i: usize = 0;
    while i < d.len()
        invariant
            i <= d@.len(),
            out@.len() == i,
            forall|j: int|
                0 <= j < i ==> (#[trigger] d@[j]).0@ == out@[j].0@ && obj_renumbered(
                    ids@,
                    start as int,
                    d@[j].1,
                    out@[j].1,
                ),
            start as int + ids@.len() <= u32::MAX as int,
        decreases d@.len() - i,
    {
        let key = d[i].0.clone();
        let val = rw_obj(&d[i].1, ids, start);
        out.push((key, val));
        i = i + 1;
    }
    out
}

impl Document {
    /// Relabel every id in this document so that serials start at
    /// `start` and increase contiguously in store order; rewrite every
    /// reference, the trailer included, to match. A pure relabeling:
    /// no object content besides ids changes. The new `max_id` is the
    /// highest serial used, `start + len - 1`.
    pub fn renumber(&mut self, start: u32)
        requires
            start >= 1,
            start as int + old(self).objects@.len() <= u32::MAX as int,
        ensures
            final(self).objects@.len() == old(self).objects@.len(),
            forall|i: int|
                0 <= i < old(self).objects@.len() ==> (#[trigger] final(self).objects@[i]).0
                    == (ObjectId { num: (start + i) as u32, gen: 0u16 }) && obj_renumbered(
                    store_ids(old(self).objects@),
                    start as int,
                    old(self).objects@[i].1,
                    final(self).objects@[i].1,
                ),
            dict_renumbered(
                store_ids(old(self).objects@),
                start as int,
                old(self).trailer@,
                final(self).trailer@,
            ),
            final(self).max_id as int == start as int + old(self).objects@.len() - 1,
            final(self).version == old(self).version,
    {
        let ids = crate::store::collect_ids(&self.objects);
        let mut out: Vec<(ObjectId, Object)> = Vec::new();
        let mut i: usize = 0;
        while i < self.objects.len()
            invariant
                i <= self.objects@.len(),
                out@.len() == i,
                ids@ == store_ids(self.objects@),
                start as int + self.objects@.len() <= u32::MAX as int,
                forall|j: int|
                    0 <= j < i ==> (#[trigger] out@[j]).0 == (ObjectId {
                        num: (start + j) as u32,
                        gen: 0u16,
                    }) && obj_renumbered(
                        store_ids(self.objects@),
                        start as int,
                        self.objects@[j].1,
                        out@[j].1,
                    ),
            decreases self.objects@.len() - i,
        {
            let new_id = ObjectId { num: start + i as u32, gen: 0u16 };
            let new_obj = rw_obj(&self.objects[i].1, &ids, start);
            out.push((new_id, new_obj));
            i = i + 1;
        }
        let new_trailer = rw_dict(&self.trailer, &ids, start);
        let count = self.objects.len();
        self.objects = out;
        self.trailer = new_trailer;
        self.max_id = start - 1 + count as u32;
    }
}

} // verus!

verus! {

/// A relabeled dictionary answers every lookup with the relabeled
/// value of the original's answer.
pub proof fn lemma_dict_renum_lookup(
    ids: Seq<ObjectId>,
    start: int,
    a: Seq<(String, Object)>,
    b: Seq<(String, Object)>,
    k: Seq<char>,
)
    requires
        dict_renumbered(ids, start, a, b),
    ensures
        crate::object::dict_has(b, k) == crate::object::dict_has(a, k),
        crate::object::dict_has(a, k) ==> obj_renumbered(
            ids,
            start,
            crate::object::dict_value(a, k),
            crate::object::dict_value(b, k),
        ),
{
    crate::object::lemma_dict_fi_same_keys(a, b, k, 0);
    crate::object::lemma_dict_first_index(a, k);
}

/// Relabeling ids does not change an object's declared type.
pub proof fn lemma_renum_type(ids: Seq<ObjectId>, start: int, a: Object, b: Object)
    requires
        obj_renumbered(ids, start, a, b),
    ensures
        crate::object::spec_type_of(b) == crate::object::spec_type_of(a),
{
    match a {
        Object::Dict(x) => {
            let y = b->Dict_0;
            lemma_dict_renum_lookup(ids, start, x@, y@, "Type"@);
        },
        Object::Stream(x, p) => {
            let y = b->Stream_0;
            lemma_dict_renum_lookup(ids, start, x@, y@, "Type"@);
        },
        _ => {},
    }
}

} // verus!

verus! {

/// The image of a present id under relabeling: serial `start` plus
/// its position, generation zero.
pub open spec fn renum_image(ids: Seq<ObjectId>, start: int, id: ObjectId) -> ObjectId
    recommends
        id_first_index(ids, id) >= 0,
{
    ObjectId { num: (start + id_first_index(ids, id)) as u32, gen: 0u16 }
}

/// Searching a store's id list is searching the store.
pub proof fn lemma_id_fi_store(s: Seq<(ObjectId, Object)>, id: ObjectId, i: int)
    ensures
        id_first_index_from(store_ids(s), id, i) == crate::store::store_first_index_from(s, id, i),
    decreases s.len() - i,
{
    assert(store_ids(s).len() == s.len());
    if 0 <= i < s.len() {
        assert(store_ids(s)[i] == s[i].0);
        if s[i].0 != id {
            lemma_id_fi_store(s, id, i + 1);
        }
    }
}

} // verus!
