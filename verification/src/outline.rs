//! The outline builder: turns an ordered list of bookmark entries into
//! a PDF outline — a root "Outlines" dictionary and a doubly linked
//! chain of item dictionaries — appended to a document's store under
//! fresh ids.

use vstd::prelude::*;
use crate::object::Object;
use crate::object::ObjectId;
use crate::object::dict_has;
use crate::object::dict_value;
use crate::store::Document;

verus! {

/// One bookmark request: a title, an RGB colour (integer components, as
/// the merge produces), a nesting level, and the target page. Nesting
/// is not materialized: every entry becomes a top-level item, which is
/// all the merge asks for.
pub struct Bookmark {
    pub title: Vec<u8>,
    pub color: (i64, i64, i64),
    pub level: u32,
    pub page: ObjectId,
}

/// The decimal digits of `n`, most significant first, as ASCII bytes.
pub open spec fn spec_decimal(n: nat) -> Seq<u8>
    decreases n,
{
    if n < 10 {
        seq![(48 + n) as u8]
    } else {
        spec_decimal(n / 10).push((48 + n % 10) as u8)
    }
}

/// The decimal digits of `n`, as `spec_decimal` states them.
pub fn u32_decimal(n: u32) -> (r: Vec<u8>)
    ensures
        r@ == spec_decimal(n as nat),
    decreases n,
{
    if n < 10 {
        let mut r: Vec<u8> = Vec::new();
        r.push(48 + n as u8);
        proof {
            assert(r@ =~= seq![(48 + n as nat) as u8]);
        }
        r
    } else {
        let mut r = u32_decimal(n / 10);
        r.push(48 + (n % 10) as u8);
        r
    }
}

/// The title the merge gives the bookmark of the `n`th contributing
/// source: "Page_" followed by the decimal digits of `n`.
pub open spec fn spec_page_title(n: nat) -> Seq<u8> {
    seq![80u8, 97u8, 103u8, 101u8, 95u8] + spec_decimal(n)
}

/// The bookmark title for the `n`th contributing source.
pub fn page_title(n: u32) -> (r: Vec<u8>)
    ensures
        r@ == spec_page_title(n as nat),
{
    let mut r: Vec<u8> = Vec::new();
    r.push(80u8);
    r.push(97u8);
    r.push(103u8);
    r.push(101u8);
    r.push(95u8);
    let mut digits = u32_decimal(n);
    r.append(&mut digits);
    proof {
        assert(r@ =~= spec_page_title(n as nat));
    }
    r
}

/// What the `i`th outline item of a built outline holds: the `i`th
/// bookmark's title, colour and target, a Parent reference to the
/// root, and Prev/Next references chaining the items in order.
pub open spec fn outline_item_ok(
    d: Seq<(String, Object)>,
    bms: Seq<Bookmark>,
    i: int,
    first_id: u32,
    root: ObjectId,
) -> bool {
    &&& !dict_has(d, "Type"@)
    &&& dict_has(d, "Title"@)
    &&& (dict_value(d, "Title"@) matches Object::Text(t) && t@ == bms[i].title@)
    &&& dict_has(d, "Dest"@)
    &&& (dict_value(d, "Dest"@) matches Object::Array(a) && a@.len() == 2 && a@[0]
        == Object::Ref(bms[i].page))
    &&& dict_has(d, "C"@)
    &&& (dict_value(d, "C"@) matches Object::Array(c) && c@.len() == 3 && c@[0]
        == Object::Integer(bms[i].color.0) && c@[1] == Object::Integer(bms[i].color.1) && c@[2]
        == Object::Integer(bms[i].color.2))
    &&& dict_has(d, "Parent"@)
    &&& dict_value(d, "Parent"@) == Object::Ref(root)
    &&& (i > 0 ==> dict_has(d, "Prev"@) && dict_value(d, "Prev"@) == Object::Ref(
        ObjectId { num: (first_id + i - 1) as u32, gen: 0u16 },
    ))
    &&& (i == 0 ==> !dict_has(d, "Prev"@))
    &&& (i < bms.len() - 1 ==> dict_has(d, "Next"@) && dict_value(d, "Next"@) == Object::Ref(
        ObjectId { num: (first_id + i + 1) as u32, gen: 0u16 },
    ))
    &&& (i == bms.len() - 1 ==> !dict_has(d, "Next"@))
}

/// What the root of a built outline holds: type "Outlines", First and
/// Last references to the ends of the item chain, and the item count.
pub open spec fn outline_root_ok(
    d: Seq<(String, Object)>,
    bms: Seq<Bookmark>,
    first_id: u32,
) -> bool {
    &&& crate::object::spec_dict_type(d) == Some("Outlines"@)
    &&& dict_has(d, "First"@)
    &&& dict_value(d, "First"@) == Object::Ref(ObjectId { num: first_id, gen: 0u16 })
    &&& dict_has(d, "Last"@)
    &&& dict_value(d, "Last"@) == Object::Ref(
        ObjectId { num: (first_id + bms.len() - 1) as u32, gen: 0u16 },
    )
    &&& dict_has(d, "Count"@)
    &&& dict_value(d, "Count"@) == Object::Integer(bms.len() as i64)
}

#[verifier::rlimit(50)]
fn build_item(bms: &Vec<Bookmark>, i: usize, first_id: u32, root: ObjectId) -> (d: Vec<
    (String, Object),
>)
    requires
        i < bms@.len(),
        first_id as int + bms@.len() <= u32::MAX as int,
    ensures
        outline_item_ok(d@, bms@, i as int, first_id, root),
{
    let bm = &bms[i];
    let mut d: Vec<(String, Object)> = Vec::new();
    let mut title: Vec<u8> = Vec::new();
    let mut src = crate::renumber::clone_bytes(&bm.title);
    title.append(&mut src);
    d.push(("Title".to_string(), Object::Text(title)));
    let mut dest: Vec<Object> = Vec::new();
    dest.push(Object::Ref(bm.page));
    dest.push(Object::Name("Fit".to_string()));
    d.push(("Dest".to_string(), Object::Array(dest)));
    let mut col: Vec<Object> = Vec::new();
    col.push(Object::Integer(bm.color.0));
    col.push(Object::Integer(bm.color.1));
    col.push(Object::Integer(bm.color.2));
    d.push(("C".to_string(), Object::Array(col)));
    d.push(("Parent".to_string(), Object::Ref(root)));
    if i > 0 {
        d.push(("Prev".to_string(), Object::Ref(ObjectId { num: first_id + i as u32 - 1, gen: 0u16 })));
    }
    if i + 1 < bms.len() {
        d.push(("Next".to_string(), Object::Ref(ObjectId { num: first_id + i as u32 + 1, gen: 0u16 })));
    }
    proof {
        reveal_with_fuel(crate::object::dict_first_index_from, 10);
        crate::object::lemma_keys_distinct();
        assert(dict_value(d@, "Title"@) == d@[0].1);
        assert(dict_value(d@, "Dest"@) == d@[1].1);
        assert(dict_value(d@, "C"@) == d@[2].1);
        assert(dict_value(d@, "Parent"@) == d@[3].1);
    }
    d
}

impl Document {
    /// Append a freshly built outline for `bms` to this document:
    /// one item per bookmark under ids `max_id + 1 ..`, then the root
    /// under the next id, which becomes the new `max_id`. Returns the
    /// root's id, or None — with the document unchanged — when `bms`
    /// is empty. The caller wires the root into its Catalog.
    pub fn build_outline(&mut self, bms: &Vec<Bookmark>) -> (r: Option<ObjectId>)
        requires
            old(self).max_id as int + bms@.len() + 1 <= u32::MAX as int,
        ensures
            bms@.len() == 0 ==> (r is None && *final(self) == *old(self)),
            bms@.len() > 0 ==> {
                let first_id = (old(self).max_id + 1) as u32;
                let root = ObjectId { num: (old(self).max_id + bms@.len() + 1) as u32, gen: 0u16 };
                &&& r == Some(root)
                &&& final(self).objects@.len() == old(self).objects@.len() + bms@.len() + 1
                &&& forall|j: int|
                    0 <= j < old(self).objects@.len() ==> final(self).objects@[j] == old(
                        self,
                    ).objects@[j]
                &&& forall|i: int|
                    0 <= i < bms@.len() ==> (#[trigger] final(self).objects@[old(
                        self,
                    ).objects@.len() + i]).0 == (ObjectId {
                        num: (first_id + i) as u32,
                        gen: 0u16,
                    }) && (final(self).objects@[old(self).objects@.len() + i].1
                        matches Object::Dict(d) && outline_item_ok(
                        d@,
                        bms@,
                        i,
                        first_id,
                        root,
                    ))
                &&& final(self).objects@.last().0 == root
                &&& (final(self).objects@.last().1 matches Object::Dict(d) && outline_root_ok(
                    d@,
                    bms@,
                    first_id,
                ))
                &&& final(self).max_id == root.num
                &&& final(self).trailer == old(self).trailer
                &&& final(self).version == old(self).version
            },
    {
        if bms.len() == 0 {
            return None;
        }
        let first_id: u32 = self.max_id + 1;
        let root = ObjectId { num: self.max_id + bms.len() as u32 + 1, gen: 0u16 };
        let ghost n0 = self.objects@.len();
        let mut i: usize = 0;
        while i < bms.len()
            invariant
                i <= bms@.len(),
                first_id == old(self).max_id + 1,
                first_id as int + bms@.len() <= u32::MAX as int,
                root == (ObjectId { num: (old(self).max_id + bms@.len() + 1) as u32, gen: 0u16 }),
                n0 == old(self).objects@.len(),
                self.objects@.len() == n0 + i,
                self.max_id == old(self).max_id,
                self.trailer == old(self).trailer,
                self.version == old(self).version,
                forall|j: int| 0 <= j < n0 ==> self.objects@[j] == old(self).objects@[j],
                forall|k: int|
                    0 <= k < i ==> (#[trigger] self.objects@[n0 + k]).0 == (ObjectId {
                        num: (first_id + k) as u32,
                        gen: 0u16,
                    }) && (self.objects@[n0 + k].1 matches Object::Dict(d) && outline_item_ok(
                        d@,
                        bms@,
                        k,
                        first_id,
                        root,
                    )),
            decreases bms@.len() - i,
        {
            let d = build_item(bms, i, first_id, root);
            self.objects.push((ObjectId { num: first_id + i as u32, gen: 0u16 }, Object::Dict(d)));
            i = i + 1;
        }
        let mut rd: Vec<(String, Object)> = Vec::new();
        rd.push(("Type".to_string(), Object::Name("Outlines".to_string())));
        rd.push(("First".to_string(), Object::Ref(ObjectId { num: first_id, gen: 0u16 })));
        rd.push((
            "Last".to_string(),
            Object::Ref(ObjectId { num: first_id + bms.len() as u32 - 1, gen: 0u16 }),
        ));
        rd.push(("Count".to_string(), Object::Integer(bms.len() as i64)));
        proof {
            reveal_with_fuel(crate::object::dict_first_index_from, 10);
            crate::object::lemma_keys_distinct();
            assert(dict_value(rd@, "Type"@) == rd@[0].1);
            assert(dict_value(rd@, "First"@) == rd@[1].1);
            assert(dict_value(rd@, "Last"@) == rd@[2].1);
            assert(dict_value(rd@, "Count"@) == rd@[3].1);
        }
        self.objects.push((root, Object::Dict(rd)));
        self.max_id = root.num;
        Some(root)
    }
}

} // verus!
