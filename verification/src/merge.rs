//! The graph merger: consumes a sequence of source documents with
//! requested page numbers and produces one unified object graph —
//! ids renumbered into disjoint ranges, structural singletons folded
//! to one Catalog and one Pages root, extracted pages re-parented
//! under that root, source outlines dropped, a fresh outline built,
//! and ids finally compacted to a dense range starting at 1.

use vstd::prelude::*;
use vstd::pervasive::unreached;
use crate::object::Object;
use crate::object::ObjectId;
use crate::object::dict_has;
use crate::object::dict_value;
use crate::object::dict_set;
use crate::object::dict_remove;
use crate::object::dict_extend_first;
use crate::object::spec_type_of;
use crate::object::spec_dict_type;
use crate::object::type_of;
use crate::outline::Bookmark;
use crate::pages::page_ids;
use crate::pages::resolve_requests;
use crate::pages::spec_page_ids;
use crate::pages::spec_resolved_from;
use crate::pages::spec_missing_from;
use crate::store::Document;
use crate::store::store_has;
use crate::store::store_value;
use crate::store::store_ids;
use crate::store::collect_ids;

verus! {

/// One source to merge: a loaded document and the ordered, 1-based
/// page numbers requested of it. Duplicates are allowed and kept; an
/// empty list contributes the source's other objects but no pages and
/// no bookmark.
pub struct Source {
    pub document: Document,
    pub page_numbers: Vec<u32>,
}

/// What the merge reports instead of failing: requested page numbers
/// with no page, each tagged with its source's position; and whether
/// a Pages root or a Catalog was found anywhere at all.
pub struct Diagnostics {
    pub missing_pages: Vec<(usize, u32)>,
    pub missing_pages_root: bool,
    pub missing_catalog: bool,
}

/// The result of a merge: the unified document, the diagnostics, a
/// completeness flag (false when the merge degraded for want of a
/// Catalog or a Pages root), and — when complete — the final ids of
/// the surviving Catalog, the Pages root, the pages in order, and the
/// outline root if bookmarks were built.
pub struct MergeOutcome {
    pub document: Document,
    pub diagnostics: Diagnostics,
    pub complete: bool,
    pub catalog: Option<ObjectId>,
    pub pages_root: Option<ObjectId>,
    pub page_ids: Vec<ObjectId>,
    pub outline_root: Option<ObjectId>,
    /// The final compaction's id list, kept as ghost data: the witness
    /// under which `merged_content_ok` relates the output to the
    /// sources.
    pub compaction: Ghost<Seq<ObjectId>>,
}

/// The first serial handed to source `k`: 1 for the first source, and
/// past the previous source's range for each one after it.
pub open spec fn spec_source_start(srcs: Seq<Source>, k: int) -> int
    decreases k,
{
    if k <= 0 {
        1
    } else {
        spec_source_start(srcs, k - 1) + srcs[k - 1].document.objects@.len()
    }
}

/// The ids of the pages source `s` contributes, in requested order,
/// in the source's own numbering.
pub open spec fn spec_resolved_of(s: Source) -> Seq<ObjectId> {
    spec_resolved_from(spec_page_ids(s.document), s.page_numbers@, 0)
}

/// The requested numbers of source `s` that resolve to no page.
pub open spec fn spec_missing_of(s: Source) -> Seq<u32> {
    spec_missing_from(spec_page_ids(s.document), s.page_numbers@, 0)
}

/// All missing page numbers of the first `k` sources, each tagged
/// with its source's position, in source then request order.
pub open spec fn spec_missing_all(srcs: Seq<Source>, k: int) -> Seq<(usize, u32)>
    decreases k,
{
    if k <= 0 {
        Seq::empty()
    } else {
        spec_missing_all(srcs, k - 1) + spec_missing_of(srcs[k - 1]).map_values(
            |n: u32| ((k - 1) as usize, n),
        )
    }
}

/// How many (source, page number) pairs of the first `k` sources
/// resolve to a page.
pub open spec fn spec_resolved_total(srcs: Seq<Source>, k: int) -> int
    decreases k,
{
    if k <= 0 {
        0
    } else {
        spec_resolved_total(srcs, k - 1) + spec_resolved_of(srcs[k - 1]).len()
    }
}

/// Whether `doc` holds a dictionary object of declared type `t`.
pub open spec fn spec_src_has_dict_type(doc: Document, t: Seq<char>) -> bool {
    exists|j: int|
        0 <= j < doc.objects@.len() && ((#[trigger] doc.objects@[j]).1 matches Object::Dict(d)
            && spec_dict_type(d@) == Some(t))
}

/// Whether any of the first `k` sources holds a dictionary object of
/// declared type `t`.
pub open spec fn spec_any_source(srcs: Seq<Source>, k: int, t: Seq<char>) -> bool {
    exists|j: int| 0 <= j < k && spec_src_has_dict_type((#[trigger] srcs[j]).document, t)
}

/// An object that the merge carries through unchanged: one that plays
/// no structural role in the fold.
pub open spec fn not_special(o: Object) -> bool {
    &&& spec_type_of(o) != Some("Catalog"@)
    &&& spec_type_of(o) != Some("Pages"@)
    &&& spec_type_of(o) != Some("Page"@)
    &&& spec_type_of(o) != Some("Outlines"@)
    &&& spec_type_of(o) != Some("Outline"@)
}

/// Whether `v` holds `id`, as `Seq::contains` states it.
fn id_vec_contains(v: &Vec<ObjectId>, id: ObjectId) -> (r: bool)
    ensures
        r == v@.contains(id),
{
    let mut i: usize = 0;
    while i < v.len()
        invariant
            i <= v@.len(),
            forall|j: int| 0 <= j < i ==> v@[j] != id,
        decreases v@.len() - i,
    {
        if v[i] == id {
            return true;
        }
        i = i + 1;
    }
    false
}

/// The classification of one object by its declared type.
#[derive(PartialEq, Eq, Structural)]
enum Kind {
    CatalogKind,
    PagesKind,
    PageKind,
    OutlineKind,
    OtherKind,
}

/// Classify `o` by its declared type: the structural roles the fold
/// treats specially, or none of them.
fn classify(o: &Object) -> (r: Kind)
    ensures
        r == Kind::CatalogKind <==> spec_type_of(*o) == Some("Catalog"@),
        r == Kind::PagesKind <==> spec_type_of(*o) == Some("Pages"@),
        r == Kind::PageKind <==> spec_type_of(*o) == Some("Page"@),
        r == Kind::OutlineKind <==> (spec_type_of(*o) == Some("Outlines"@) || spec_type_of(*o)
            == Some("Outline"@)),
        r == Kind::OtherKind <==> not_special(*o),
{
    proof {
        crate::object::lemma_keys_distinct();
    }
    match type_of(o) {
        Some(t) => {
            if *t == "Catalog".to_string() {
                Kind::CatalogKind
            } else if *t == "Pages".to_string() {
                Kind::PagesKind
            } else if *t == "Page".to_string() {
                Kind::PageKind
            } else if *t == "Outlines".to_string() || *t == "Outline".to_string() {
                Kind::OutlineKind
            } else {
                Kind::OtherKind
            }
        },
        None => Kind::OtherKind,
    }
}

} // verus!

verus! {

pub open spec fn id_ok(id: ObjectId, bound: int) -> bool {
    id.gen == 0u16 && 1 <= id.num && (id.num as int) < bound
}

/// The accumulated state of the merge after some sources: carried
/// objects and extracted pages with fresh, bounded, pairwise distinct
/// ids; every page id of `kids` backed by an entry of `pagevec`; and
/// the selected Catalog and Pages-root singletons, typed as such.
pub open spec fn acc_inv(
    unified: Seq<(ObjectId, Object)>,
    pagevec: Seq<(ObjectId, Object)>,
    cat_id: Option<ObjectId>,
    cat_dict: Seq<(String, Object)>,
    pg_id: Option<ObjectId>,
    pg_dict: Seq<(String, Object)>,
    bound: int,
) -> bool {
    &&& forall|i: int|
        0 <= i < unified.len() ==> not_special((#[trigger] unified[i]).1) && id_ok(
            unified[i].0,
            bound,
        )
    &&& forall|i: int|
        0 <= i < pagevec.len() ==> ((#[trigger] pagevec[i]).1 matches Object::Dict(d)
            && spec_dict_type(d@) == Some("Page"@)) && id_ok(pagevec[i].0, bound)
    &&& forall|i: int, j: int|
        0 <= i < j < unified.len() ==> (#[trigger] unified[i]).0 != (#[trigger] unified[j]).0
    &&& forall|i: int, j: int|
        0 <= i < j < pagevec.len() ==> (#[trigger] pagevec[i]).0 != (#[trigger] pagevec[j]).0
    &&& forall|i: int, j: int|
        0 <= i < unified.len() && 0 <= j < pagevec.len() ==> (#[trigger] unified[i]).0 != (
        #[trigger] pagevec[j]).0
    &&& (cat_id matches Some(c) ==> {
        &&& id_ok(c, bound)
        &&& spec_dict_type(cat_dict) == Some("Catalog"@)
        &&& forall|i: int| 0 <= i < unified.len() ==> (#[trigger] unified[i]).0 != c
        &&& forall|i: int| 0 <= i < pagevec.len() ==> (#[trigger] pagevec[i]).0 != c
    })
    &&& (pg_id matches Some(p) ==> {
        &&& id_ok(p, bound)
        &&& spec_dict_type(pg_dict) == Some("Pages"@)
        &&& forall|i: int| 0 <= i < unified.len() ==> (#[trigger] unified[i]).0 != p
        &&& forall|i: int| 0 <= i < pagevec.len() ==> (#[trigger] pagevec[i]).0 != p
        &&& (cat_id matches Some(c) ==> c != p)
    })
}

/// The page ids handed out so far: each in range, and each backed by
/// an extracted page object.
pub open spec fn kids_inv(
    kids: Seq<ObjectId>,
    pagevec: Seq<(ObjectId, Object)>,
    bound: int,
) -> bool {
    &&& forall|i: int| 0 <= i < kids.len() ==> id_ok(#[trigger] kids[i], bound)
    &&& forall|i: int|
        #![trigger kids[i]]
        0 <= i < kids.len() ==> exists|p: int|
            0 <= p < pagevec.len() && (#[trigger] pagevec[p]).0 == kids[i]
    &&& forall|p: int|
        0 <= p < pagevec.len() ==> kids.contains((#[trigger] pagevec[p]).0)
}

/// A page id with a backer: an extracted entry of `pagevec`, or — while
/// a source's store is still being drained — its entry at or after
/// position `j` of that store.
pub open spec fn backed_one(
    id: ObjectId,
    pagevec: Seq<(ObjectId, Object)>,
    full: Seq<(ObjectId, Object)>,
    j: int,
) -> bool {
    (exists|p: int| 0 <= p < pagevec.len() && (#[trigger] pagevec[p]).0 == id) || (exists|q: int|
        j <= q < full.len() && (#[trigger] full[q]).0 == id && (full[q].1 matches Object::Dict(d)
            && spec_dict_type(d@) == Some("Page"@)))
}

/// A carried object accounted for: some entry of `unified` holds, under
/// the id that renumbering `doc` with first serial `start` assigns `id`,
/// the relabeled image of the object `doc` stores under `id`.
pub open spec fn carried_from(
    doc: Document,
    start: int,
    id: ObjectId,
    unified: Seq<(ObjectId, Object)>,
) -> bool {
    exists|u: int|
        0 <= u < unified.len() && (#[trigger] unified[u]).0 == crate::renumber::renum_image(
            store_ids(doc.objects@),
            start,
            id,
        ) && crate::renumber::obj_renumbered(
            store_ids(doc.objects@),
            start,
            store_value(doc.objects@, id),
            unified[u].1,
        )
}

/// An extracted page accounted for: some entry of `pagevec` holds, under
/// the page id `kid`, the relabeled image of the page `doc` stores under
/// `orig`.
pub open spec fn page_from(
    doc: Document,
    start: int,
    orig: ObjectId,
    kid: ObjectId,
    pagevec: Seq<(ObjectId, Object)>,
) -> bool {
    exists|p: int|
        0 <= p < pagevec.len() && (#[trigger] pagevec[p]).0 == kid
            && crate::renumber::obj_renumbered(
            store_ids(doc.objects@),
            start,
            store_value(doc.objects@, orig),
            pagevec[p].1,
        )
}

/// How the finished store relates to the accumulated sets under the
/// final compaction `ids2`: the carried object at accumulator position
/// `u` survives at serial `1 + u`, relabeled; and each page id's
/// extracted dictionary survives, relabeled, with exactly its "Parent"
/// binding rebound to the Pages root.
/// The carried object at accumulator position `u` survives at serial
/// `1 + u`, relabeled by the compaction `ids2`.
pub open spec fn carried_compacted(
    unified: Seq<(ObjectId, Object)>,
    doc: Document,
    ids2: Seq<ObjectId>,
    u: int,
) -> bool {
    &&& store_has(doc.objects@, (ObjectId { num: (1 + u) as u32, gen: 0u16 }))
    &&& crate::renumber::obj_renumbered(
        ids2,
        1,
        unified[u].1,
        store_value(doc.objects@, (ObjectId { num: (1 + u) as u32, gen: 0u16 })),
    )
}

/// The `i`th page id's extracted dictionary survives under its final
/// id, relabeled by the compaction `ids2`, with exactly its "Parent"
/// binding rebound to the Pages root.
pub open spec fn page_compacted(
    pagevec: Seq<(ObjectId, Object)>,
    kids: Seq<ObjectId>,
    pids_fin: Seq<ObjectId>,
    doc: Document,
    pid_fin: ObjectId,
    ids2: Seq<ObjectId>,
    i: int,
) -> bool {
    exists|p: int|
        0 <= p < pagevec.len() && (#[trigger] pagevec[p]).0 == kids[i] && (pagevec[p].1
            matches Object::Dict(sd) && store_value(doc.objects@, pids_fin[i])
            matches Object::Dict(fd) && exists|md: Seq<(String, Object)>|
            crate::renumber::dict_renumbered(ids2, 1, sd@, md)
                && crate::object::dict_rebound(md, fd@, "Parent"@, Object::Ref(pid_fin)))
}

pub open spec fn compacted_ok(
    unified: Seq<(ObjectId, Object)>,
    pagevec: Seq<(ObjectId, Object)>,
    kids: Seq<ObjectId>,
    doc: Document,
    pids_fin: Seq<ObjectId>,
    pid_fin: ObjectId,
    ids2: Seq<ObjectId>,
) -> bool {
    &&& forall|u: int|
        0 <= u < unified.len() ==> #[trigger] carried_compacted(unified, doc, ids2, u)
    &&& forall|i: int|
        0 <= i < kids.len() ==> #[trigger] page_compacted(
            pagevec,
            kids,
            pids_fin,
            doc,
            pid_fin,
            ids2,
            i,
        )
}

/// Source `kk`'s object under `id` survives the whole merge: its value
/// relabeled into the source's id block, then by the final compaction
/// `ids2`, stands in the merged store under some id.
pub open spec fn source_carried(
    srcs: Seq<Source>,
    kk: int,
    id: ObjectId,
    doc: Document,
    ids2: Seq<ObjectId>,
) -> bool {
    exists|fid: ObjectId, mid: Object|
        store_has(doc.objects@, fid) && crate::renumber::obj_renumbered(
            store_ids(srcs[kk].document.objects@),
            spec_source_start(srcs, kk),
            store_value(srcs[kk].document.objects@, id),
            mid,
        ) && #[trigger] crate::renumber::obj_renumbered(
            ids2,
            1,
            mid,
            store_value(doc.objects@, fid),
        )
}

/// The page named by source `kk`'s `x`th resolved request survives as
/// the merged document's page at the corresponding position: its
/// dictionary relabeled into the source's block and then by the final
/// compaction, with exactly its "Parent" binding rebound to the root.
pub open spec fn source_page_carried(
    srcs: Seq<Source>,
    kk: int,
    x: int,
    doc: Document,
    pids_fin: Seq<ObjectId>,
    pid_fin: ObjectId,
    ids2: Seq<ObjectId>,
) -> bool {
    let i = spec_resolved_total(srcs, kk) + x;
    &&& 0 <= i < pids_fin.len()
    &&& (store_value(srcs[kk].document.objects@, spec_resolved_of(srcs[kk])[x])
        matches Object::Dict(sd) && store_value(doc.objects@, pids_fin[i])
        matches Object::Dict(fd) && exists|md1: Seq<(String, Object)>, md2: Seq<(String, Object)>|
        crate::renumber::dict_renumbered(
            store_ids(srcs[kk].document.objects@),
            spec_source_start(srcs, kk),
            sd@,
            md1,
        ) && #[trigger] crate::renumber::dict_renumbered(ids2, 1, md1, md2)
            && crate::object::dict_rebound(md2, fd@, "Parent"@, Object::Ref(pid_fin)))
}

/// Content preservation, whole-merge: every not-special source object
/// survives relabeled, and every resolved request's page survives at
/// its position in the final page list, changed only in "Parent".
pub open spec fn merged_content_ok(
    srcs: Seq<Source>,
    doc: Document,
    pids_fin: Seq<ObjectId>,
    pid_fin: ObjectId,
    ids2: Seq<ObjectId>,
) -> bool {
    &&& forall|kk: int, id: ObjectId|
        0 <= kk < srcs.len() && store_has(srcs[kk].document.objects@, id) && not_special(
            store_value(srcs[kk].document.objects@, id),
        ) ==> #[trigger] source_carried(srcs, kk, id, doc, ids2)
    &&& forall|kk: int, x: int|
        #![trigger spec_resolved_of(srcs[kk])[x]]
        0 <= kk < srcs.len() && 0 <= x < spec_resolved_of(srcs[kk]).len() ==> source_page_carried(
            srcs,
            kk,
            x,
            doc,
            pids_fin,
            pid_fin,
            ids2,
        )
}

/// The pages source `s` contributes, in requested order, under the
/// ids its renumbering with first serial `start` assigns them.
pub open spec fn spec_mapped_resolved(s: Source, start: int) -> Seq<ObjectId> {
    spec_resolved_of(s).map_values(
        |x: ObjectId| crate::renumber::renum_image(store_ids(s.document.objects@), start, x),
    )
}

/// A copy of a list of ids.
fn copy_ids(v: &Vec<ObjectId>) -> (r: Vec<ObjectId>)
    ensures
        r@ == v@,
{
    let mut r: Vec<ObjectId> = Vec::new();
    let mut i: usize = 0;
    while i < v.len()
        invariant
            i <= v@.len(),
            r@ =~= v@.take(i as int),
        decreases v@.len() - i,
    {
        r.push(v[i]);
        i = i + 1;
    }
    proof {
        assert(v@.take(v@.len() as int) =~= v@);
    }
    r
}

} // verus!

verus! {

/// Absorb one source into the accumulated merge state: resolve its
/// requested pages, renumber it to the disjoint range starting at
/// `start`, record its missing page numbers under the source position
/// `k`, extract its requested pages, fold its structural singletons,
/// carry its other objects, and drop its outlines. Returns the first
/// serial free for the next source.
#[verifier::rlimit(100)]
fn absorb_source(
    src: Source,
    k: usize,
    start: u32,
    unified: &mut Vec<(ObjectId, Object)>,
    pagevec: &mut Vec<(ObjectId, Object)>,
    kids: &mut Vec<ObjectId>,
    anchors: &mut Vec<usize>,
    missing: &mut Vec<(usize, u32)>,
    cat_id: &mut Option<ObjectId>,
    cat_dict: &mut Vec<(String, Object)>,
    pg_id: &mut Option<ObjectId>,
    pg_dict: &mut Vec<(String, Object)>,
) -> (next: u32)
    requires
        1 <= start,
        start as int + src.document.objects@.len() <= u32::MAX as int,
        acc_inv(
            old(unified)@,
            old(pagevec)@,
            *old(cat_id),
            old(cat_dict)@,
            *old(pg_id),
            old(pg_dict)@,
            start as int,
        ),
        kids_inv(old(kids)@, old(pagevec)@, start as int),
        forall|a: int|
            0 <= a < old(anchors)@.len() ==> (#[trigger] old(anchors)@[a]) < old(kids)@.len(),
        old(anchors)@.len() > 0 <==> old(kids)@.len() > 0,
    ensures
        next as int == start as int + src.document.objects@.len(),
        acc_inv(
            final(unified)@,
            final(pagevec)@,
            *final(cat_id),
            final(cat_dict)@,
            *final(pg_id),
            final(pg_dict)@,
            next as int,
        ),
        kids_inv(final(kids)@, final(pagevec)@, next as int),
        final(kids)@ == old(kids)@ + spec_mapped_resolved(src, start as int),
        final(missing)@ == old(missing)@ + spec_missing_of(src).map_values(|n: u32| (k, n)),
        spec_resolved_of(src).len() > 0 ==> final(anchors)@ == old(anchors)@.push(
            old(kids)@.len() as usize,
        ),
        spec_resolved_of(src).len() == 0 ==> final(anchors)@ == old(anchors)@,
        forall|a: int|
            0 <= a < final(anchors)@.len() ==> (#[trigger] final(anchors)@[a])
                < final(kids)@.len(),
        final(anchors)@.len() > 0 <==> final(kids)@.len() > 0,
        (*final(cat_id) is Some) == ((*old(cat_id) is Some) || spec_src_has_dict_type(
            src.document,
            "Catalog"@,
        )),
        *old(cat_id) is Some ==> *final(cat_id) == *old(cat_id) && final(cat_dict)@ == old(
            cat_dict,
        )@,
        (*final(pg_id) is Some) == ((*old(pg_id) is Some) || spec_src_has_dict_type(
            src.document,
            "Pages"@,
        )),
        *old(pg_id) is Some ==> *final(pg_id) == *old(pg_id),
        final(unified)@.len() + final(pagevec)@.len() <= old(unified)@.len() + old(
            pagevec,
        )@.len() + src.document.objects@.len(),
        final(unified)@.len() >= old(unified)@.len(),
        final(pagevec)@.len() >= old(pagevec)@.len(),
        forall|u: int| 0 <= u < old(unified)@.len() ==> #[trigger] final(unified)@[u] == old(
            unified,
        )@[u],
        forall|p: int| 0 <= p < old(pagevec)@.len() ==> #[trigger] final(pagevec)@[p] == old(
            pagevec,
        )@[p],
        forall|id: ObjectId|
            store_has(src.document.objects@, id) && not_special(
                store_value(src.document.objects@, id),
            ) ==> #[trigger] carried_from(src.document, start as int, id, final(unified)@),
        forall|i: int|
            #![trigger final(kids)@[i]]
            old(kids)@.len() <= i < final(kids)@.len() ==> page_from(
                src.document,
                start as int,
                spec_resolved_of(src)[i - old(kids)@.len()],
                final(kids)@[i],
                final(pagevec)@,
            ),
{
    let Source { mut document, page_numbers } = src;
    proof {
        assert(usize::MAX as int >= u32::MAX as int);
    }
    let plist = page_ids(&document);
    let (res_orig, miss) = resolve_requests(&plist, &page_numbers);
    let pre_ids = collect_ids(&document.objects);
    let ghost pre = document.objects@;
    document.renumber(start);
    let ghost full = document.objects@;
    let ghost ids0 = store_ids(pre);
    // map the resolved page ids into the renumbered range
    let mut res_new: Vec<ObjectId> = Vec::new();
    let mut i: usize = 0;
    while i < res_orig.len()
        invariant
            i <= res_orig@.len(),
            res_new@.len() == i,
            pre_ids@ == ids0,
            ids0 == store_ids(pre),
            start as int + pre.len() <= u32::MAX as int,
            res_orig@ == spec_resolved_of(src),
            miss@ == spec_missing_of(src),
            page_numbers@ == src.page_numbers@,
            plist@ == spec_page_ids(src.document),
            pre == src.document.objects@,
            forall|j: int|
                0 <= j < i ==> (#[trigger] res_new@[j]) == crate::renumber::renum_image(
                    ids0,
                    start as int,
                    res_orig@[j],
                ),
            forall|j: int|
                0 <= j < i ==> crate::renumber::id_first_index(ids0, #[trigger] res_orig@[j])
                    >= 0,
        decreases res_orig@.len() - i,
    {
        proof {
            crate::pages::lemma_resolved_elements(plist@, page_numbers@, 0);
            assert(spec_resolved_from(plist@, page_numbers@, 0)[i as int] == res_orig@[i as int]);
            assert(spec_resolved_from(plist@, page_numbers@, 0).contains(res_orig@[i as int]));
            assert(plist@.contains(res_orig@[i as int]));
            crate::pages::lemma_page_ids_elements(src.document);
            assert(spec_page_ids(src.document).contains(res_orig@[i as int]));
            assert(store_has(pre, res_orig@[i as int]));
            crate::renumber::lemma_id_fi_store(pre, res_orig@[i as int], 0);
        }
        match crate::renumber::map_id(&pre_ids, start, res_orig[i]) {
            Some(n) => {
                res_new.push(n);
            },
            None => {
                proof {
                    assert(false);
                }
                unreached()
            },
        }
        i = i + 1;
    }
    proof {
        assert(res_new@ =~= spec_mapped_resolved(src, start as int));
    }
    // bookmark anchor and page order
    if res_new.len() > 0 {
        anchors.push(kids.len());
    }
    let ghost kids0v = kids@;
    let res_copy = copy_ids(&res_new);
    kids.append(&mut res_new);
    proof {
        // each fresh page id lies in this source's range and is backed,
        // for now, by an entry of the renumbered store
        assert forall|x: int| 0 <= x < res_copy@.len() implies {
            &&& id_ok(#[trigger] res_copy@[x], start as int + full.len())
            &&& (res_copy@[x].num as int) >= start as int
            &&& backed_one(res_copy@[x], pagevec@, full, 0)
        } by {
            assert(res_copy@[x] == spec_mapped_resolved(src, start as int)[x]);
            let orig = spec_resolved_of(src)[x];
            crate::renumber::lemma_id_fi_store(pre, orig, 0);
            crate::store::lemma_store_first_index(pre, orig);
            crate::pages::lemma_resolved_elements(plist@, page_numbers@, 0);
            assert(spec_resolved_from(plist@, page_numbers@, 0).contains(orig));
            assert(plist@.contains(orig));
            crate::pages::lemma_page_ids_elements(src.document);
            assert(store_has(pre, orig));
            let q = crate::store::store_first_index(pre, orig);
            assert(pre[q].1 == crate::store::store_value(pre, orig));
            assert(res_copy@[x] == crate::renumber::renum_image(ids0, start as int, orig));
            assert(crate::renumber::id_first_index(ids0, orig) == q);
            assert(res_copy@[x] == full[q].0);
            crate::renumber::lemma_renum_type(ids0, start as int, pre[q].1, full[q].1);
            assert(0 <= q < full.len() && full[q].0 == res_copy@[x] && (full[q].1
                matches Object::Dict(d) && spec_dict_type(d@) == Some("Page"@)));
        }
    }
    // diagnostics
    let mut mi: usize = 0;
    let ghost missing0 = missing@;
    while mi < miss.len()
        invariant
            mi <= miss@.len(),
            missing@ == missing0 + miss@.take(mi as int).map_values(|n: u32| (k, n)),
        decreases miss@.len() - mi,
    {
        let ghost before = missing@;
        missing.push((k, miss[mi]));
        mi = mi + 1;
        proof {
            assert(miss@.take(mi as int).map_values(|n: u32| (k, n)) =~= miss@.take(
                mi - 1,
            ).map_values(|n: u32| (k, n)).push((k, miss@[mi - 1])));
            assert(missing@ =~= before.push((k, miss@[mi - 1])));
        }
    }
    proof {
        assert(miss@.take(miss@.len() as int) =~= miss@);
        assert(missing@ =~= missing0 + spec_missing_of(src).map_values(|n: u32| (k, n)));
    }
    // classify and fold the renumbered objects
    let mut objs = document.objects;
    proof {
        assert(full.len() == pre.len());
        assert forall|p: int| 0 <= p < full.len() implies crate::object::spec_type_of(
            (#[trigger] full[p]).1,
        ) == crate::object::spec_type_of(pre[p].1) && ((full[p].1 matches Object::Dict(d)) <==> (
        pre[p].1 matches Object::Dict(e))) by {
            crate::renumber::lemma_renum_type(ids0, start as int, pre[p].1, full[p].1);
        }
    }
    let ghost cat0 = *cat_id;
    let ghost pg0 = *pg_id;
    let ghost unified0 = unified@;
    let ghost pagevec0 = pagevec@;
    proof {
        assert forall|p: int| 0 <= p < pagevec@.len() implies kids@.contains(
            (#[trigger] pagevec@[p]).0,
        ) by {
            assert(kids0v.contains(pagevec@[p].0));
            let i = choose|i: int| 0 <= i < kids0v.len() && kids0v[i] == pagevec@[p].0;
            assert(kids@[i] == kids0v[i]);
        }
    }
    let mut j: usize = 0;
    while objs.len() > 0
        invariant
            objs@ == full.skip(j as int),
            0 <= j <= full.len(),
            full.len() == pre.len(),
            pre == src.document.objects@,
            ids0 == store_ids(pre),
            start as int + pre.len() <= u32::MAX as int,
            1 <= start,
            forall|p: int|
                0 <= p < full.len() ==> (#[trigger] full[p]).0 == (ObjectId {
                    num: (start + p) as u32,
                    gen: 0u16,
                }),
            forall|p: int|
                0 <= p < full.len() ==> crate::object::spec_type_of((#[trigger] full[p]).1)
                    == crate::object::spec_type_of(pre[p].1) && ((full[p].1
                    matches Object::Dict(d)) <==> (pre[p].1 matches Object::Dict(e))),
            acc_inv(
                unified@,
                pagevec@,
                *cat_id,
                cat_dict@,
                *pg_id,
                pg_dict@,
                start as int + j as int,
            ),
            kids@ == kids0v + res_copy@,
            kids_inv(kids0v, pagevec0, start as int),
            forall|p: int| 0 <= p < pagevec0.len() ==> pagevec@[p] == pagevec0[p],
            pagevec@.len() >= pagevec0.len(),
            forall|x: int|
                0 <= x < res_copy@.len() ==> id_ok(#[trigger] res_copy@[x], start as int
                    + full.len()) && ((res_copy@[x].num as int) >= start as int),
            forall|x: int|
                0 <= x < res_copy@.len() ==> #[trigger] backed_one(
                    res_copy@[x],
                    pagevec@,
                    full,
                    j as int,
                ),
            forall|p: int| 0 <= p < pagevec@.len() ==> kids@.contains((#[trigger] pagevec@[p]).0),
            forall|p: int|
                pagevec0.len() <= p < pagevec@.len() ==> exists|q: int|
                    0 <= q < j && #[trigger] pagevec@[p] == full[q],
            forall|q: int|
                0 <= q < j && not_special((#[trigger] full[q]).1) ==> exists|u: int|
                    0 <= u < unified@.len() && unified@[u] == full[q],
            unified@.len() >= unified0.len(),
            forall|u: int| 0 <= u < unified0.len() ==> #[trigger] unified@[u] == unified0[u],
            (*cat_id is Some) == ((cat0 is Some) || exists|p: int|
                0 <= p < j && ((#[trigger] full[p]).1 matches Object::Dict(d) && spec_dict_type(
                    d@,
                ) == Some("Catalog"@))),
            cat0 is Some ==> *cat_id == cat0 && cat_dict@ == old(cat_dict)@,
            (*pg_id is Some) == ((pg0 is Some) || exists|p: int|
                0 <= p < j && ((#[trigger] full[p]).1 matches Object::Dict(d) && spec_dict_type(
                    d@,
                ) == Some("Pages"@))),
            pg0 is Some ==> *pg_id == pg0,
            unified@.len() + pagevec@.len() <= unified0.len() + pagevec0.len() + j,
            forall|a: int| 0 <= a < anchors@.len() ==> (#[trigger] anchors@[a]) < kids@.len(),
            anchors@.len() > 0 <==> kids@.len() > 0,
        decreases objs@.len(),
    {
        let ghost objs0 = objs@;
        let (id, obj) = objs.remove(0);
        proof {
            assert(objs@ =~= objs0.drop_first());
            assert(objs@ =~= full.skip(j as int + 1));
            assert((id, obj) == full[j as int]);
            assert(id == (ObjectId { num: (start + j as int) as u32, gen: 0u16 }));
            assert((start as int + j as int) < u32::MAX as int);
            assert(id.num as int == start as int + j as int);
        }
        let kind = classify(&obj);
        let is_page = kind == Kind::PageKind;
        let contained = if is_page {
            id_vec_contains(&res_copy, id)
        } else {
            false
        };
        let ghost pagevec_at = pagevec@;
        let ghost unified_at = unified@;
        if is_page && contained {
            match obj {
                Object::Dict(d) => {
                    pagevec.push((id, Object::Dict(d)));
                    proof {
                        let x = choose|x: int|
                            0 <= x < res_copy@.len() && res_copy@[x] == id;
                        assert(kids@[kids0v.len() + x] == id);
                        assert(kids@.contains(id));
                        assert(pagevec@[pagevec@.len() - 1] == full[j as int]);
                    }
                },
                _ => {
                    proof {
                        let x = choose|x: int|
                            0 <= x < res_copy@.len() && res_copy@[x] == id;
                        assert(backed_one(res_copy@[x], pagevec@, full, j as int));
                        if exists|p: int|
                            0 <= p < pagevec@.len() && (#[trigger] pagevec@[p]).0
                                == res_copy@[x] {
                            let p = choose|p: int|
                                0 <= p < pagevec@.len() && (#[trigger] pagevec@[p]).0
                                    == res_copy@[x];
                            assert((pagevec@[p].0.num as int) < start as int + j as int);
                            assert(false);
                        } else {
                            let q = choose|q: int|
                                j <= q < full.len() && (#[trigger] full[q]).0 == res_copy@[x]
                                    && (full[q].1 matches Object::Dict(d) && spec_dict_type(d@)
                                    == Some("Page"@));
                            assert(full[q].0.num as int == start as int + q);
                            assert(q == j as int);
                            assert(false);
                        }
                    }
                    unreached()
                },
            }
        } else if kind == Kind::CatalogKind {
            if cat_id.is_none() {
                match obj {
                    Object::Dict(d) => {
                        *cat_id = Some(id);
                        *cat_dict = d;
                    },
                    _ => {},
                }
            }
        } else if kind == Kind::PagesKind {
            match obj {
                Object::Dict(d) => {
                    if pg_id.is_none() {
                        *pg_id = Some(id);
                        *pg_dict = d;
                    } else {
                        proof {
                            crate::object::lemma_dict_union_preserves(pg_dict@, d@, "Type"@);
                        }
                        dict_extend_first(pg_dict, d);
                    }
                },
                _ => {},
            }
        } else if kind == Kind::OutlineKind {
            // source outlines are dropped, never carried
        } else if kind == Kind::OtherKind {
            unified.push((id, obj));
            proof {
                assert(unified@[unified@.len() - 1] == full[j as int]);
            }
        }
        proof {
            assert forall|u: int| 0 <= u < unified0.len() implies #[trigger] unified@[u]
                == unified0[u] by {
                assert(unified@[u] == unified_at[u]);
            }
            assert forall|q: int|
                0 <= q < j as int + 1 && not_special((#[trigger] full[q]).1) implies exists|
                u: int,
            |
                0 <= u < unified@.len() && unified@[u] == full[q] by {
                if q == j as int {
                    assert(kind == Kind::OtherKind);
                    assert(unified@[unified@.len() - 1] == full[j as int]);
                } else {
                    let u = choose|u: int|
                        0 <= u < unified_at.len() && unified_at[u] == full[q];
                    assert(unified@[u] == unified_at[u]);
                }
            }
            // each fresh page id keeps a backer: in `pagevec` once its
            // store entry has been drained, in the store until then
            assert forall|x: int| 0 <= x < res_copy@.len() implies #[trigger] backed_one(
                res_copy@[x],
                pagevec@,
                full,
                j as int + 1,
            ) by {
                assert(backed_one(res_copy@[x], pagevec_at, full, j as int));
                if exists|p: int|
                    0 <= p < pagevec_at.len() && (#[trigger] pagevec_at[p]).0 == res_copy@[x] {
                    let p = choose|p: int|
                        0 <= p < pagevec_at.len() && (#[trigger] pagevec_at[p]).0
                            == res_copy@[x];
                    assert(pagevec@[p] == pagevec_at[p]);
                    assert((#[trigger] pagevec@[p]).0 == res_copy@[x]);
                } else {
                    let q = choose|q: int|
                        j <= q < full.len() && (#[trigger] full[q]).0 == res_copy@[x]
                            && (full[q].1 matches Object::Dict(d) && spec_dict_type(d@)
                            == Some("Page"@));
                    if q == j as int {
                        assert(full[j as int].0 == res_copy@[x]);
                        assert(res_copy@.contains(res_copy@[x]));
                        assert(spec_type_of(full[j as int].1) == Some("Page"@));
                        assert(is_page);
                        assert(contained);
                        assert(pagevec@.len() == pagevec_at.len() + 1);
                        assert(pagevec@[pagevec@.len() - 1].0 == id);
                        assert(id == res_copy@[x]);
                        assert((#[trigger] pagevec@[pagevec@.len() - 1]).0 == res_copy@[x]);
                    } else {
                        assert(j as int + 1 <= q < full.len() && (#[trigger] full[q]).0
                            == res_copy@[x] && (full[q].1 matches Object::Dict(d)
                            && spec_dict_type(d@) == Some("Page"@)));
                    }
                }
            }
        }
        j = j + 1;
    }
    proof {
        assert(j as int == full.len());
        assert(kids@ =~= kids0v + spec_mapped_resolved(src, start as int));
        assert(kids@.len() == kids0v.len() + res_copy@.len());
        assert forall|i: int| 0 <= i < kids@.len() implies id_ok(
            #[trigger] kids@[i],
            start as int + full.len(),
        ) && exists|p: int|
            0 <= p < pagevec@.len() && (#[trigger] pagevec@[p]).0 == kids@[i] by {
            if i < kids0v.len() {
                assert(kids@[i] == kids0v[i]);
                let p = choose|p: int|
                    0 <= p < pagevec0.len() && (#[trigger] pagevec0[p]).0 == kids0v[i];
                assert(pagevec@[p] == pagevec0[p]);
                assert(pagevec@[p].0 == kids@[i]);
            } else {
                let x = i - kids0v.len();
                assert(kids@[i] == res_copy@[x]);
                assert(backed_one(res_copy@[x], pagevec@, full, full.len() as int));
                assert(!(exists|q: int|
                    full.len() <= q < full.len() && (#[trigger] full[q]).0 == res_copy@[x] && (
                    full[q].1 matches Object::Dict(d) && spec_dict_type(d@) == Some("Page"@))));
                assert(exists|p: int|
                    0 <= p < pagevec@.len() && (#[trigger] pagevec@[p]).0 == res_copy@[x]);
            }
        }
        // two witness instances seed the solver before the bundled claim
        assert(0 < kids@.len() ==> id_ok(kids@[0], start as int + full.len()));
        assert(0 < kids@.len() ==> exists|p: int|
            0 <= p < pagevec@.len() && (#[trigger] pagevec@[p]).0 == kids@[0]);
        assert(kids_inv(kids@, pagevec@, start as int + full.len()));
        // a structural dictionary exists among the renumbered objects
        // exactly when one exists in the source
        let tc = "Catalog"@;
        if exists|p: int|
            0 <= p < full.len() && ((#[trigger] full[p]).1 matches Object::Dict(d)
                && spec_dict_type(d@) == Some(tc)) {
            let p = choose|p: int|
                0 <= p < full.len() && ((#[trigger] full[p]).1 matches Object::Dict(d)
                    && spec_dict_type(d@) == Some(tc));
            assert(pre[p].1 matches Object::Dict(e) && spec_dict_type(e@) == Some(tc));
            assert(spec_src_has_dict_type(src.document, tc));
        }
        if spec_src_has_dict_type(src.document, tc) {
            let p = choose|p: int|
                0 <= p < pre.len() && ((#[trigger] pre[p]).1 matches Object::Dict(d)
                    && spec_dict_type(d@) == Some(tc));
            assert(full[p].1 matches Object::Dict(e) && spec_dict_type(e@) == Some(tc));
        }
        let tp = "Pages"@;
        if exists|p: int|
            0 <= p < full.len() && ((#[trigger] full[p]).1 matches Object::Dict(d)
                && spec_dict_type(d@) == Some(tp)) {
            let p = choose|p: int|
                0 <= p < full.len() && ((#[trigger] full[p]).1 matches Object::Dict(d)
                    && spec_dict_type(d@) == Some(tp));
            assert(pre[p].1 matches Object::Dict(e) && spec_dict_type(e@) == Some(tp));
            assert(spec_src_has_dict_type(src.document, tp));
        }
        if spec_src_has_dict_type(src.document, tp) {
            let p = choose|p: int|
                0 <= p < pre.len() && ((#[trigger] pre[p]).1 matches Object::Dict(d)
                    && spec_dict_type(d@) == Some(tp));
            assert(full[p].1 matches Object::Dict(e) && spec_dict_type(e@) == Some(tp));
        }
    }
    proof {
        assert(pre_ids@.len() == pre.len());
        // every carried source object survives, relabeled, in `unified`
        assert forall|id: ObjectId|
            store_has(pre, id) && not_special(store_value(pre, id)) implies #[trigger] carried_from(
            src.document,
            start as int,
            id,
            unified@,
        ) by {
            crate::store::lemma_store_first_index(pre, id);
            let fi = crate::store::store_first_index(pre, id);
            assert(pre[fi].1 == store_value(pre, id));
            assert(crate::object::spec_type_of(full[fi].1) == crate::object::spec_type_of(
                pre[fi].1,
            ));
            assert(not_special(full[fi].1));
            let u = choose|u: int| 0 <= u < unified@.len() && unified@[u] == full[fi];
            crate::renumber::lemma_id_fi_store(pre, id, 0);
            assert(unified@[u].0 == crate::renumber::renum_image(ids0, start as int, id));
            assert(crate::renumber::obj_renumbered(
                ids0,
                start as int,
                store_value(pre, id),
                unified@[u].1,
            ));
            assert(carried_from(src.document, start as int, id, unified@));
        }
        // every fresh kid's extracted page is its source page, relabeled
        assert forall|i: int|
            #![trigger kids@[i]]
            kids0v.len() <= i < kids@.len() implies page_from(
            src.document,
            start as int,
            spec_resolved_of(src)[i - kids0v.len()],
            kids@[i],
            pagevec@,
        ) by {
            let x = i - kids0v.len();
            let orig = spec_resolved_of(src)[x];
            assert(kids@[i] == res_copy@[x]);
            assert(res_copy@[x] == crate::renumber::renum_image(ids0, start as int, orig));
            assert(backed_one(res_copy@[x], pagevec@, full, full.len() as int));
            let p = choose|p: int|
                0 <= p < pagevec@.len() && (#[trigger] pagevec@[p]).0 == res_copy@[x];
            if p < pagevec0.len() {
                assert(pagevec@[p] == pagevec0[p]);
                assert((pagevec0[p].0.num as int) < start as int);
                crate::renumber::lemma_id_first_index_from(ids0, orig, 0);
                assert((res_copy@[x].num as int) >= start as int);
                assert(false);
            }
            let q = choose|q: int|
                0 <= q < full.len() && #[trigger] pagevec@[p] == full[q];
            crate::renumber::lemma_id_first_index_from(ids0, orig, 0);
            let fi = crate::renumber::id_first_index(ids0, orig);
            crate::renumber::lemma_id_fi_store(pre, orig, 0);
            crate::store::lemma_store_first_index(pre, orig);
            assert(full[q].0.num as int == start as int + q);
            assert(full[fi].0.num as int == start as int + fi);
            assert(full[q].0 == res_copy@[x]);
            assert(q == fi);
            assert(pre[fi].1 == store_value(pre, orig));
            assert(page_from(src.document, start as int, orig, kids@[i], pagevec@));
        }
    }
    start + pre_ids.len() as u32
}

} // verus!

verus! {

/// What it means for the finished store to fold its singletons: the
/// Catalog and the Pages root each live under exactly one id, the
/// only outline object is the freshly built root, and no source
/// outline survives.
pub open spec fn folded_ok(
    s: Seq<(ObjectId, Object)>,
    cid: ObjectId,
    pid: ObjectId,
    pids: Seq<ObjectId>,
    outline: Option<ObjectId>,
) -> bool {
    &&& forall|j: int|
        0 <= j < s.len() ==> (spec_type_of((#[trigger] s[j]).1) == Some("Catalog"@) <==> s[j].0
            == cid)
    &&& forall|j: int|
        0 <= j < s.len() ==> (spec_type_of((#[trigger] s[j]).1) == Some("Pages"@) <==> s[j].0
            == pid)
    &&& forall|j: int|
        0 <= j < s.len() ==> (spec_type_of((#[trigger] s[j]).1) == Some("Page"@) <==> pids.contains(
            s[j].0,
        ))
    &&& forall|j: int|
        0 <= j < s.len() ==> (spec_type_of((#[trigger] s[j]).1) == Some("Outlines"@) <==> (
        outline matches Some(og) && s[j].0 == og))
    &&& forall|j: int|
        0 <= j < s.len() ==> spec_type_of((#[trigger] s[j]).1) != Some("Outline"@)
}

/// What the merged document promises of its pages: the Pages root is
/// a dictionary with the page count and the ordered Kids references,
/// each page a dictionary re-parented under it, and the trailer's
/// Root names the one Catalog, which names the Pages root.
pub open spec fn merged_doc_ok(
    doc: Document,
    cid: ObjectId,
    pid: ObjectId,
    pids_fin: Seq<ObjectId>,
    outline: Option<ObjectId>,
) -> bool {
    &&& store_has(doc.objects@, pid)
    &&& (store_value(doc.objects@, pid) matches Object::Dict(pd) && {
        &&& spec_dict_type(pd@) == Some("Pages"@)
        &&& dict_has(pd@, "Count"@)
        &&& dict_value(pd@, "Count"@) == Object::Integer(pids_fin.len() as i64)
        &&& dict_has(pd@, "Kids"@)
        &&& (dict_value(pd@, "Kids"@) matches Object::Array(ka) && ka@.len() == pids_fin.len()
            && forall|i: int| 0 <= i < pids_fin.len() ==> ka@[i] == Object::Ref(#[trigger] pids_fin[i]))
    })
    &&& forall|i: int|
        0 <= i < pids_fin.len() ==> store_has(doc.objects@, #[trigger] pids_fin[i])
            && (store_value(doc.objects@, pids_fin[i]) matches Object::Dict(d) && {
            &&& spec_dict_type(d@) == Some("Page"@)
            &&& dict_has(d@, "Parent"@)
            &&& dict_value(d@, "Parent"@) == Object::Ref(pid)
        })
    &&& dict_has(doc.trailer@, "Root"@)
    &&& dict_value(doc.trailer@, "Root"@) == Object::Ref(cid)
    &&& store_has(doc.objects@, cid)
    &&& (store_value(doc.objects@, cid) matches Object::Dict(cd) && {
        &&& spec_dict_type(cd@) == Some("Catalog"@)
        &&& dict_has(cd@, "Pages"@)
        &&& dict_value(cd@, "Pages"@) == Object::Ref(pid)
        &&& (outline matches Some(og) ==> dict_has(cd@, "Outlines"@) && dict_value(
            cd@,
            "Outlines"@,
        ) == Object::Ref(og))
        &&& (outline is None ==> !dict_has(cd@, "Outlines"@))
    })
    &&& folded_ok(doc.objects@, cid, pid, pids_fin, outline)
    &&& forall|a: int, b: int|
        0 <= a < b < doc.objects@.len() ==> (#[trigger] doc.objects@[a]).0 != (
        #[trigger] doc.objects@[b]).0
    &&& doc.max_id as int == doc.objects@.len()
    &&& doc.version@ == "1.5"@
}

} // verus!

verus! {

/// Assemble the final document from the accumulated state: gather the
/// carried objects, the extracted pages, the folded Pages root and
/// Catalog; compact every id to the dense range starting at 1; then
/// re-parent the pages, write the root's Count and Kids, point the
/// Catalog at the root and the trailer at the Catalog, and build the
/// outline. Returns the document with the final ids of the Catalog,
/// the Pages root, the pages in order, and the outline root.
#[verifier::rlimit(100)]
#[verifier::loop_isolation(false)]
fn finalize(
    unified: Vec<(ObjectId, Object)>,
    pagevec: Vec<(ObjectId, Object)>,
    kids: Vec<ObjectId>,
    anchors: Vec<usize>,
    cid: ObjectId,
    cat_dict: Vec<(String, Object)>,
    pid: ObjectId,
    pg_dict: Vec<(String, Object)>,
    bound: u32,
) -> (r: (Document, ObjectId, ObjectId, Vec<ObjectId>, Option<ObjectId>, Ghost<Seq<ObjectId>>))
    requires
        acc_inv(unified@, pagevec@, Some(cid), cat_dict@, Some(pid), pg_dict@, bound as int),
        kids_inv(kids@, pagevec@, bound as int),
        forall|a: int| 0 <= a < anchors@.len() ==> (#[trigger] anchors@[a]) < kids@.len(),
        anchors@.len() > 0 <==> kids@.len() > 0,
        unified@.len() + pagevec@.len() + anchors@.len() + 4 <= u32::MAX as int,
        kids@.len() <= i64::MAX as int,
        anchors@.len() + 1 <= u32::MAX as int,
    ensures
        r.3@.len() == kids@.len(),
        merged_doc_ok(r.0, r.1, r.2, r.3@, r.4),
        (r.4 is Some) <==> kids@.len() > 0,
        forall|i: int, j: int|
            0 <= i < kids@.len() && 0 <= j < kids@.len() ==> ((#[trigger] r.3@[i]
                == #[trigger] r.3@[j]) <==> kids@[i] == kids@[j]),
        compacted_ok(unified@, pagevec@, kids@, r.0, r.3@, r.2, r.5@),
{
    proof {
        assert(usize::MAX as int >= u32::MAX as int);
    }
    let ghost u0 = unified@;
    let ghost pv0 = pagevec@;
    let nu = unified.len();
    let np = pagevec.len();
    // remember each page's id: a page's position among the pages gives
    // its final serial
    let mut pv_ids: Vec<ObjectId> = Vec::new();
    let mut q: usize = 0;
    while q < np
        invariant
            q <= np,
            np as int == pv0.len(),
            pagevec@ == pv0,
            pv_ids@.len() == q,
            forall|i: int| 0 <= i < q ==> #[trigger] pv_ids@[i] == pv0[i].0,
        decreases np - q,
    {
        pv_ids.push(pagevec[q].0);
        q = q + 1;
    }
    // gather everything into one store, pages after carried objects,
    // then the Pages root, then the Catalog
    let mut store = unified;
    let mut pv = pagevec;
    let mut t: usize = 0;
    while pv.len() > 0
        invariant
            pv@ == pv0.skip(t as int),
            0 <= t <= pv0.len(),
            nu as int == u0.len(),
            store@.len() == u0.len() + t,
            pv0.len() <= usize::MAX as int,
            forall|j: int| 0 <= j < u0.len() ==> #[trigger] store@[j] == u0[j],
            forall|j: int|
                u0.len() <= j < store@.len() ==> #[trigger] store@[j] == pv0[j - u0.len()],
        decreases pv@.len(),
    {
        let ghost pvb = pv@;
        let e = pv.remove(0);
        proof {
            assert(pv@ =~= pvb.drop_first());
            assert(pv@ =~= pv0.skip(t as int + 1));
            assert(e == pv0[t as int]);
        }
        store.push(e);
        t = t + 1;
    }
    store.push((pid, Object::Dict(pg_dict)));
    store.push((cid, Object::Dict(cat_dict)));
    let ghost pref = store@;
    let n_store = store.len();
    proof {
        assert(pref.len() == u0.len() + pv0.len() + 2);
    }
    // compact every id to the dense range starting at 1
    let mut doc = Document {
        objects: store,
        trailer: Vec::new(),
        max_id: 0,
        version: "1.5".to_string(),
    };
    doc.max_id = n_store as u32;
    doc.renumber(1);
    let ghost post0 = doc.objects@;
    proof {
        assert(post0.len() == pref.len());
        assert(doc.max_id as int == pref.len());
        assert forall|p: int| 0 <= p < pref.len() implies crate::object::spec_type_of(
            (#[trigger] post0[p]).1,
        ) == crate::object::spec_type_of(pref[p].1) && ((post0[p].1 matches Object::Dict(d))
            <==> (pref[p].1 matches Object::Dict(e))) by {
            crate::renumber::lemma_renum_type(store_ids(pref), 1, pref[p].1, post0[p].1);
        }
        crate::object::lemma_keys_distinct();
    }
    let pid_fin = ObjectId { num: 1 + nu as u32 + np as u32, gen: 0u16 };
    let cid_fin = ObjectId { num: 2 + nu as u32 + np as u32, gen: 0u16 };
    // the final id of each page the kids list names
    let mut page_fin: Vec<ObjectId> = Vec::new();
    let mut ci: usize = 0;
    while ci < kids.len()
        invariant
            ci <= kids@.len(),
            page_fin@.len() == ci,
            np as int == pv0.len(),
            nu as int == u0.len(),
            u0.len() + pv0.len() + 2 <= u32::MAX as int,
            pv_ids@.len() == pv0.len(),
            forall|i: int| 0 <= i < pv0.len() ==> #[trigger] pv_ids@[i] == pv0[i].0,
            kids_inv(kids@, pv0, bound as int),
            forall|i: int|
                0 <= i < ci ==> Some(#[trigger] page_fin@[i]) == crate::renumber::renum_id(
                    pv_ids@,
                    1 + u0.len() as int,
                    kids@[i],
                ),
        decreases kids@.len() - ci,
    {
        proof {
            let p = choose|p: int|
                0 <= p < pv0.len() && (#[trigger] pv0[p]).0 == kids@[ci as int];
            assert(pv_ids@[p] == kids@[ci as int]);
            crate::renumber::lemma_id_first_index_from(pv_ids@, kids@[ci as int], 0);
        }
        match crate::renumber::map_id(&pv_ids, 1 + nu as u32, kids[ci]) {
            Some(n) => {
                proof {
                    assert((1 + nu as u32) as int == 1 + u0.len() as int);
                }
                page_fin.push(n);
            },
            None => {
                proof {
                    assert(false);
                }
                unreached()
            },
        }
        ci = ci + 1;
    }
    proof {
        assert forall|i: int| 0 <= i < kids@.len() implies {
            let pi = crate::renumber::id_first_index(pv_ids@, kids@[i]);
            &&& 0 <= pi < pv0.len()
            &&& #[trigger] page_fin@[i] == (ObjectId {
                num: (1 + u0.len() + pi) as u32,
                gen: 0u16,
            })
        } by {
            assert(Some(page_fin@[i]) == crate::renumber::renum_id(
                pv_ids@,
                1 + u0.len() as int,
                kids@[i],
            ));
            crate::renumber::lemma_id_first_index_from(pv_ids@, kids@[i], 0);
        }
    }
    // re-parent every page under the Pages root's final id
    let mut pos: usize = 0;
    while pos < np
        invariant
            pos <= np,
            nu as int == u0.len(),
            np as int == pv0.len(),
            doc.objects@.len() == post0.len(),
            post0.len() == u0.len() + pv0.len() + 2,
            u0.len() + pv0.len() + 2 <= u32::MAX as int,
            forall|p: int|
                0 <= p < post0.len() ==> (#[trigger] doc.objects@[p]).0 == (ObjectId {
                    num: (1 + p) as u32,
                    gen: 0u16,
                }),
            forall|p: int| 0 <= p < u0.len() ==> #[trigger] doc.objects@[p] == post0[p],
            forall|p: int|
                u0.len() + pos <= p < post0.len() ==> #[trigger] doc.objects@[p] == post0[p],
            forall|p: int|
                0 <= p < post0.len() ==> crate::object::spec_type_of((#[trigger] post0[p]).1)
                    == crate::object::spec_type_of(pref[p].1) && ((post0[p].1
                    matches Object::Dict(d)) <==> (pref[p].1 matches Object::Dict(e))),
            forall|p: int|
                0 <= p < post0.len() ==> (#[trigger] post0[p]).0 == (ObjectId {
                    num: (1 + p) as u32,
                    gen: 0u16,
                }),
            pref.len() == post0.len(),
            forall|j: int| 0 <= j < u0.len() ==> #[trigger] pref[j] == u0[j],
            forall|j: int|
                u0.len() <= j < u0.len() + pv0.len() ==> #[trigger] pref[j] == pv0[j - u0.len()],
            pref[u0.len() as int + pv0.len() as int] == (pid, Object::Dict(pg_dict)),
            pref[u0.len() as int + pv0.len() as int + 1] == (cid, Object::Dict(cat_dict)),
            forall|tt: int|
                0 <= tt < pos ==> ((#[trigger] doc.objects@[u0.len() + tt]).1
                    matches Object::Dict(d) && {
                    &&& spec_dict_type(d@) == Some("Page"@)
                    &&& dict_has(d@, "Parent"@)
                    &&& dict_value(d@, "Parent"@) == Object::Ref(pid_fin)
                    &&& (post0[u0.len() + tt].1 matches Object::Dict(pd)
                        && crate::object::dict_rebound(pd@, d@, "Parent"@, Object::Ref(pid_fin)))
                }),
            acc_inv(u0, pv0, Some(cid), cat_dict@, Some(pid), pg_dict@, bound as int),
            doc.max_id as int == pref.len(),
            doc.trailer@.len() == 0,
            doc.version@ == "1.5"@,
        decreases np - pos,
    {
        let ghost sb = doc.objects@;
        let (eid, eobj) = doc.objects.remove(nu + pos);
        let mut d = match eobj {
            Object::Dict(d) => d,
            _ => {
                proof {
                    assert(sb[u0.len() + pos as int].1 == post0[u0.len() + pos as int].1);
                    assert(pref[u0.len() + pos as int].1 == pv0[pos as int].1);
                    assert(false);
                }
                unreached()
            },
        };
        let ghost dpre = d@;
        dict_set(&mut d, "Parent".to_string(), Object::Ref(pid_fin));
        proof {
            crate::object::lemma_dict_set_effect(dpre, d@, "Parent"@, Object::Ref(pid_fin));
            assert("Type"@ != "Parent"@);
            assert(dict_has(d@, "Type"@) == dict_has(dpre, "Type"@));
            assert(dict_has(dpre, "Type"@) ==> dict_value(d@, "Type"@) == dict_value(
                dpre,
                "Type"@,
            ));
        }
        doc.objects.insert(nu + pos, (eid, Object::Dict(d)));
        proof {
            assert(doc.objects@ =~= sb.update(
                u0.len() as int + pos as int,
                (eid, Object::Dict(d)),
            ));
            assert(crate::object::dict_rebound(dpre, d@, "Parent"@, Object::Ref(pid_fin)));
            assert(spec_type_of(post0[u0.len() as int + pos as int].1) == Some("Page"@));
            assert(spec_dict_type(dpre) == Some("Page"@));
            assert(spec_dict_type(d@) == Some("Page"@));
            assert forall|tt: int| 0 <= tt < pos as int + 1 implies ((#[trigger] doc.objects@[u0.len() + tt]).1 matches Object::Dict(dd) && {
                &&& spec_dict_type(dd@) == Some("Page"@)
                &&& dict_has(dd@, "Parent"@)
                &&& dict_value(dd@, "Parent"@) == Object::Ref(pid_fin)
            }) by {
                if tt == pos as int {
                    assert(doc.objects@[u0.len() + tt].1 == Object::Dict(d));
                } else {
                    assert(doc.objects@[u0.len() + tt] == sb[u0.len() + tt]);
                }
            }
        }
        pos = pos + 1;
    }
    let ghost s_repar = doc.objects@;
    proof {
        assert forall|tt: int| 0 <= tt < pv0.len() implies ((#[trigger] s_repar[u0.len() + tt]).1
            matches Object::Dict(dd) && {
            &&& spec_dict_type(dd@) == Some("Page"@)
            &&& dict_has(dd@, "Parent"@)
            &&& dict_value(dd@, "Parent"@) == Object::Ref(pid_fin)
            &&& (post0[u0.len() + tt].1 matches Object::Dict(pd)
                && crate::object::dict_rebound(pd@, dd@, "Parent"@, Object::Ref(pid_fin)))
        }) by {
            assert(s_repar[u0.len() + tt] == doc.objects@[u0.len() + tt]);
        }
    }
    // the Pages root: total count and the ordered kid references
    let mut kidrefs: Vec<Object> = Vec::new();
    let mut ki: usize = 0;
    while ki < kids.len()
        invariant
            ki <= kids@.len(),
            page_fin@.len() == kids@.len(),
            kidrefs@.len() == ki,
            forall|i: int| 0 <= i < ki ==> #[trigger] kidrefs@[i] == Object::Ref(page_fin@[i]),
        decreases kids@.len() - ki,
    {
        kidrefs.push(Object::Ref(page_fin[ki]));
        ki = ki + 1;
    }
    let ghost s_pages = doc.objects@;
    let (rid, robj) = doc.objects.remove(nu + np);
    let mut rd = match robj {
        Object::Dict(d) => d,
        _ => {
            proof {
                assert(false);
            }
            unreached()
        },
    };
    let ghost rd0 = rd@;
    proof {
        assert(spec_type_of(post0[u0.len() as int + pv0.len() as int].1) == Some("Pages"@));
        assert(spec_dict_type(rd0) == Some("Pages"@));
    }
    dict_set(&mut rd, "Count".to_string(), Object::Integer(kids.len() as i64));
    proof {
        crate::object::lemma_dict_set_effect(
            rd0,
            rd@,
            "Count"@,
            Object::Integer(kids@.len() as i64),
        );
        crate::object::lemma_keys_distinct();
        assert("Type"@ != "Count"@);
        assert(dict_has(rd@, "Type"@) == dict_has(rd0, "Type"@));
        assert(dict_has(rd0, "Type"@) ==> dict_value(rd@, "Type"@) == dict_value(rd0, "Type"@));
    }
    let ghost rd1 = rd@;
    let ghost kidrefs_g = kidrefs@;
    dict_set(&mut rd, "Kids".to_string(), Object::Array(kidrefs));
    proof {
        crate::object::lemma_dict_set_effect(rd1, rd@, "Kids"@, Object::Array(kidrefs));
        crate::object::lemma_keys_distinct();
        assert("Type"@ != "Kids"@ && "Count"@ != "Kids"@);
        assert(dict_has(rd@, "Type"@) == dict_has(rd1, "Type"@));
        assert(dict_has(rd1, "Type"@) ==> dict_value(rd@, "Type"@) == dict_value(rd1, "Type"@));
        assert(dict_has(rd@, "Count"@) == dict_has(rd1, "Count"@));
        assert(dict_has(rd1, "Count"@) ==> dict_value(rd@, "Count"@) == dict_value(
            rd1,
            "Count"@,
        ));
        assert(spec_dict_type(rd@) == spec_dict_type(rd1));
        assert(spec_dict_type(rd1) == spec_dict_type(rd0));
        assert(spec_dict_type(rd0) == Some("Pages"@));
        assert(dict_value(rd@, "Count"@) == Object::Integer(kids@.len() as i64));
        assert(dict_value(rd@, "Kids"@) == Object::Array(kidrefs));
    }
    doc.objects.insert(nu + np, (rid, Object::Dict(rd)));
    let ghost s_root = doc.objects@;
    proof {
        assert(s_root =~= s_pages.update(u0.len() as int + pv0.len() as int, (rid, Object::Dict(rd))));
    }
    // the Catalog: drop any inherited outline link, point at the root
    let (xid, xobj) = doc.objects.remove(nu + np + 1);
    let mut xd = match xobj {
        Object::Dict(d) => d,
        _ => {
            proof {
                assert(false);
            }
            unreached()
        },
    };
    let ghost xd0 = xd@;
    proof {
        assert(spec_type_of(post0[u0.len() as int + pv0.len() as int + 1].1) == Some(
            "Catalog"@,
        ));
        assert(spec_dict_type(xd0) == Some("Catalog"@));
        crate::object::lemma_keys_distinct();
    }
    crate::object::dict_remove_all(&mut xd, &"Outlines".to_string());
    proof {
        assert("Type"@ != "Outlines"@);
        assert(dict_has(xd@, "Type"@) == dict_has(xd0, "Type"@));
        assert(dict_has(xd0, "Type"@) ==> dict_value(xd@, "Type"@) == dict_value(xd0, "Type"@));
        assert(spec_dict_type(xd@) == spec_dict_type(xd0));
        assert(!dict_has(xd@, "Outlines"@));
    }
    let ghost xd1 = xd@;
    dict_set(&mut xd, "Pages".to_string(), Object::Ref(pid_fin));
    proof {
        crate::object::lemma_dict_set_effect(xd1, xd@, "Pages"@, Object::Ref(pid_fin));
        assert("Type"@ != "Pages"@ && "Outlines"@ != "Pages"@);
        assert(dict_has(xd@, "Type"@) == dict_has(xd1, "Type"@));
        assert(dict_has(xd1, "Type"@) ==> dict_value(xd@, "Type"@) == dict_value(xd1, "Type"@));
        assert(dict_has(xd@, "Outlines"@) == dict_has(xd1, "Outlines"@));
        assert(!dict_has(xd@, "Outlines"@));
        assert(spec_dict_type(xd@) == Some("Catalog"@));
    }
    doc.objects.insert(nu + np + 1, (xid, Object::Dict(xd)));
    let ghost s_cat = doc.objects@;
    proof {
        assert(s_cat =~= s_root.update(u0.len() as int + pv0.len() as int + 1, (xid, Object::Dict(xd))));
    }
    // the trailer: Root names the Catalog
    doc.trailer = Vec::new();
    let mut tr: Vec<(String, Object)> = Vec::new();
    tr.push(("Root".to_string(), Object::Ref(cid_fin)));
    doc.trailer = tr;
    proof {
        reveal_with_fuel(crate::object::dict_first_index_from, 3);
        assert(dict_has(doc.trailer@, "Root"@));
        assert(dict_value(doc.trailer@, "Root"@) == Object::Ref(cid_fin));
    }
    let ghost s_trail = doc.objects@;
    proof {
        // every id is its position's serial, the whole store through
        assert forall|p: int| 0 <= p < s_trail.len() implies (#[trigger] s_trail[p]).0 == (
        ObjectId { num: (1 + p) as u32, gen: 0u16 }) by {
            assert(s_trail[p].0 == post0[p].0);
        }
    }
    // the outline: one bookmark per contributing source, anchored at
    // its first extracted page
    let mut bms: Vec<Bookmark> = Vec::new();
    let mut bi: usize = 0;
    while bi < anchors.len()
        invariant
            bi <= anchors@.len(),
            bms@.len() == bi,
        decreases anchors@.len() - bi,
    {
        let a = anchors[bi];
        let title = crate::outline::page_title(bi as u32 + 1);
        bms.push(Bookmark { title, color: (0i64, 0i64, 1i64), level: 0u32, page: page_fin[a] });
        bi = bi + 1;
    }
    proof {
        assert(doc.max_id as int == pref.len());
        assert(pref.len() == u0.len() + pv0.len() + 2);
        assert(bms@.len() == anchors@.len());
    }
    let og = doc.build_outline(&bms);
    let ghost s_outl = doc.objects@;
    proof {
        assert forall|p: int| 0 <= p < s_outl.len() implies (#[trigger] s_outl[p]).0 == (
        ObjectId { num: (1 + p) as u32, gen: 0u16 }) by {
            if p < s_trail.len() {
                assert(s_outl[p] == s_trail[p]);
            } else if p < s_outl.len() - 1 {
                let i = p - s_trail.len();
                assert(s_outl[s_trail.len() + i].0 == (ObjectId {
                    num: ((doc.max_id - bms@.len() - 1 + 1) + i) as u32,
                    gen: 0u16,
                }));
            } else {
                assert(s_outl[p].0 == (ObjectId {
                    num: doc.max_id,
                    gen: 0u16,
                }));
            }
        }
    }
    // wire the outline root into the Catalog
    if let Some(oroot) = og {
        let (wid, wobj) = doc.objects.remove(nu + np + 1);
        let mut wd = match wobj {
            Object::Dict(d) => d,
            _ => {
                proof {
                    assert(s_outl[u0.len() as int + pv0.len() as int + 1].1 == Object::Dict(xd));
                    assert(false);
                }
                unreached()
            },
        };
        let ghost wd0 = wd@;
        dict_set(&mut wd, "Outlines".to_string(), Object::Ref(oroot));
        proof {
            crate::object::lemma_dict_set_effect(wd0, wd@, "Outlines"@, Object::Ref(oroot));
            assert("Type"@ != "Outlines"@ && "Pages"@ != "Outlines"@);
            assert(dict_has(wd@, "Type"@) == dict_has(wd0, "Type"@));
            assert(dict_has(wd0, "Type"@) ==> dict_value(wd@, "Type"@) == dict_value(
                wd0,
                "Type"@,
            ));
            assert(dict_has(wd@, "Pages"@) == dict_has(wd0, "Pages"@));
            assert(dict_has(wd0, "Pages"@) ==> dict_value(wd@, "Pages"@) == dict_value(
                wd0,
                "Pages"@,
            ));
            assert(wd0 == xd@);
        }
        let ghost sw = doc.objects@;
        doc.objects.insert(nu + np + 1, (wid, Object::Dict(wd)));
        proof {
            assert(doc.objects@ =~= s_outl.update(
                u0.len() as int + pv0.len() as int + 1,
                (wid, Object::Dict(wd)),
            ));
        }
    }
    let ghost fin = doc.objects@;
    proof {
        crate::object::lemma_keys_distinct();
        // positions and serials of the finished store
        assert forall|p: int| 0 <= p < fin.len() implies (#[trigger] fin[p]).0 == (ObjectId {
            num: (1 + p) as u32,
            gen: 0u16,
        }) by {
            if p < s_trail.len() {
                assert(s_outl[p] == s_trail[p]);
            }
        }
        assert(fin.len() + 1 <= u32::MAX as int + 1);
        // the Pages root
        crate::store::lemma_store_sequential_ids(fin, 1, u0.len() as int + pv0.len() as int);
        assert(store_has(fin, pid_fin));
        assert(fin[u0.len() as int + pv0.len() as int].1 == Object::Dict(rd));
        assert(store_value(fin, pid_fin) == Object::Dict(rd));
        // each page, under the root
        assert forall|i: int| 0 <= i < page_fin@.len() implies store_has(
            fin,
            #[trigger] page_fin@[i],
        ) && (store_value(fin, page_fin@[i]) matches Object::Dict(d) && {
            &&& spec_dict_type(d@) == Some("Page"@)
            &&& dict_has(d@, "Parent"@)
            &&& dict_value(d@, "Parent"@) == Object::Ref(pid_fin)
        }) by {
            let pi = crate::renumber::id_first_index(pv_ids@, kids@[i]);
            assert(page_fin@[i] == (ObjectId { num: (1 + u0.len() + pi) as u32, gen: 0u16 }));
            assert(0 <= pi < pv0.len());
            crate::store::lemma_store_sequential_ids(fin, 1, u0.len() as int + pi);
            assert(fin[u0.len() + pi] == s_outl[u0.len() + pi]);
            assert(s_outl[u0.len() + pi] == s_trail[u0.len() + pi]);
            assert(s_trail[u0.len() + pi] == s_cat[u0.len() + pi]);
            assert(s_cat[u0.len() + pi] == s_root[u0.len() + pi]);
            assert(s_root[u0.len() + pi] == s_pages[u0.len() + pi]);
            assert(s_pages[u0.len() + pi] == s_repar[u0.len() + pi]);
        }
        // the Catalog
        crate::store::lemma_store_sequential_ids(fin, 1, u0.len() as int + pv0.len() as int + 1);
        assert(store_has(fin, cid_fin));
        // the folded singletons
        if og is None {
            assert(fin[u0.len() as int + pv0.len() as int + 1].1 == Object::Dict(xd));
        }
        assert forall|i: int| 0 <= i < page_fin@.len() implies (#[trigger] page_fin@[i]).gen
            == 0u16 && 1 + u0.len() <= page_fin@[i].num as int <= u0.len() + pv0.len() by {
            let pi = crate::renumber::id_first_index(pv_ids@, kids@[i]);
            assert(page_fin@[i] == (ObjectId { num: (1 + u0.len() + pi) as u32, gen: 0u16 }));
            assert(0 <= pi < pv0.len());
        }
        assert forall|j: int| 0 <= j < fin.len() implies {
            &&& (spec_type_of((#[trigger] fin[j]).1) == Some("Catalog"@) <==> fin[j].0 == cid_fin)
            &&& (spec_type_of(fin[j].1) == Some("Pages"@) <==> fin[j].0 == pid_fin)
            &&& (spec_type_of(fin[j].1) == Some("Page"@) <==> page_fin@.contains(fin[j].0))
            &&& (spec_type_of(fin[j].1) == Some("Outlines"@) <==> (og matches Some(ogv)
                && fin[j].0 == ogv))
            &&& spec_type_of(fin[j].1) != Some("Outline"@)
        } by {
            if page_fin@.contains(fin[j].0) {
                let w = choose|w: int| 0 <= w < page_fin@.len() && page_fin@[w] == fin[j].0;
                assert(1 + u0.len() <= fin[j].0.num as int <= u0.len() + pv0.len());
                assert(u0.len() <= j < u0.len() + pv0.len());
            }
            assert(fin.len() <= u32::MAX as int);
            assert(fin[j].0.num as int == 1 + j);
            assert(pid_fin.num as int == 1 + u0.len() + pv0.len());
            assert(cid_fin.num as int == 2 + u0.len() + pv0.len());
            if j < u0.len() {
                assert(fin[j] == s_outl[j]);
                assert(s_outl[j] == s_trail[j]);
                assert(s_trail[j] == post0[j]);
                assert(spec_type_of(fin[j].1) == spec_type_of(u0[j].1));
                assert(not_special(u0[j].1));
            } else if j < u0.len() + pv0.len() {
                assert(fin[j] == s_outl[j]);
                assert(s_outl[j] == s_trail[j]);
                assert(s_trail[j] == s_cat[j]);
                assert(s_cat[j] == s_root[j]);
                assert(s_root[j] == s_pages[j]);
                assert(s_pages[j] == s_repar[j]);
                let tt = j - u0.len();
                assert(s_repar[u0.len() + tt] == s_repar[j]);
                assert(fin[j].1 matches Object::Dict(dd) && spec_dict_type(dd@) == Some(
                    "Page"@,
                ));
                // this page's id is among the final page ids
                assert(kids@.contains(pv0[tt].0));
                let wi = choose|wi: int| 0 <= wi < kids@.len() && kids@[wi] == pv0[tt].0;
                let wf = crate::renumber::id_first_index(pv_ids@, kids@[wi]);
                assert(page_fin@[wi] == (ObjectId { num: (1 + u0.len() + wf) as u32, gen: 0u16 }));
                crate::renumber::lemma_id_first_index_from(pv_ids@, kids@[wi], 0);
                assert(pv_ids@[wf] == kids@[wi]);
                assert(pv_ids@[wf] == pv0[wf].0 && pv_ids@[tt] == pv0[tt].0);
                assert(pv0[wf].0 == pv0[tt].0);
                assert(wf == tt);
                assert(page_fin@[wi] == fin[j].0);
                assert(page_fin@.contains(fin[j].0));
            } else if j == u0.len() + pv0.len() {
                assert(fin[j] == s_outl[j]);
                assert(s_outl[j] == s_trail[j]);
                assert(fin[j].1 == Object::Dict(rd));
                assert(spec_type_of(fin[j].1) == Some("Pages"@));
            } else if j == u0.len() + pv0.len() + 1 {
                assert(spec_type_of(fin[j].1) == Some("Catalog"@));
            } else {
                // an outline item or the outline root
                assert(fin[j] == s_outl[j]);
                let base = u0.len() as int + pv0.len() as int + 2;
                if j < fin.len() - 1 {
                    let i = j - base;
                    assert(s_outl[base + i].1 matches Object::Dict(d)
                        && crate::outline::outline_item_ok(
                        d@,
                        bms@,
                        i,
                        (base + 1) as u32,
                        (ObjectId { num: (base + bms@.len() + 1) as u32, gen: 0u16 }),
                    ));
                    assert(spec_type_of(fin[j].1) is None);
                } else {
                    assert(s_outl.last().1 matches Object::Dict(d)
                        && crate::outline::outline_root_ok(d@, bms@, (base + 1) as u32));
                    assert(spec_type_of(fin[j].1) == Some("Outlines"@));
                    assert(og matches Some(ogv) && fin[j].0 == ogv);
                }
            }
        }
        // the order of the final page ids mirrors the kids exactly
        assert forall|i: int, j: int|
            0 <= i < kids@.len() && 0 <= j < kids@.len() implies ((#[trigger] page_fin@[i]
                == #[trigger] page_fin@[j]) <==> kids@[i] == kids@[j]) by {
            let pi = crate::renumber::id_first_index(pv_ids@, kids@[i]);
            let pj = crate::renumber::id_first_index(pv_ids@, kids@[j]);
            assert(page_fin@[i] == (ObjectId { num: (1 + u0.len() + pi) as u32, gen: 0u16 }));
            assert(page_fin@[j] == (ObjectId { num: (1 + u0.len() + pj) as u32, gen: 0u16 }));
            crate::renumber::lemma_id_first_index_from(pv_ids@, kids@[i], 0);
            crate::renumber::lemma_id_first_index_from(pv_ids@, kids@[j], 0);
            assert(0 <= pi < pv0.len() && 0 <= pj < pv0.len());
            assert(pv_ids@[pi] == kids@[i] && pv_ids@[pj] == kids@[j]);
            if page_fin@[i] == page_fin@[j] {
                assert((1 + u0.len() + pi) as u32 == (1 + u0.len() + pj) as u32);
                assert(pi == pj);
                assert(kids@[i] == kids@[j]);
            }
        }
        // the finished store holds the accumulated objects, compacted
        assert(fin == doc.objects@);
        assert forall|u: int|
            0 <= u < u0.len() implies #[trigger] carried_compacted(u0, doc, store_ids(pref), u)
            by {
            crate::store::lemma_store_sequential_ids(fin, 1, u);
            assert(fin[u] == s_outl[u]);
            assert(s_outl[u] == s_trail[u]);
            assert(s_trail[u] == post0[u]);
            assert(pref[u] == u0[u]);
            assert(crate::renumber::obj_renumbered(store_ids(pref), 1, pref[u].1, post0[u].1));
            assert(store_has(doc.objects@, (ObjectId { num: (1 + u) as u32, gen: 0u16 })));
            assert(carried_compacted(u0, doc, store_ids(pref), u));
        }
        assert forall|i: int|
            0 <= i < kids@.len() implies #[trigger] page_compacted(
            pv0,
            kids@,
            page_fin@,
            doc,
            pid_fin,
            store_ids(pref),
            i,
        ) by {
            let p = choose|p: int| 0 <= p < pv0.len() && (#[trigger] pv0[p]).0 == kids@[i];
            let fi = crate::renumber::id_first_index(pv_ids@, kids@[i]);
            assert(page_fin@[i] == (ObjectId { num: (1 + u0.len() + fi) as u32, gen: 0u16 }));
            assert(0 <= fi < pv0.len());
            crate::renumber::lemma_id_first_index_from(pv_ids@, kids@[i], 0);
            assert(pv_ids@[fi] == kids@[i]);
            assert(pv_ids@[fi] == pv0[fi].0 && pv_ids@[p] == pv0[p].0);
            assert(pv0[fi].0 == pv0[p].0);
            assert(fi == p);
            crate::store::lemma_store_sequential_ids(fin, 1, u0.len() as int + p);
            assert(store_value(fin, page_fin@[i]) == fin[u0.len() + p].1);
            assert(fin[u0.len() + p] == s_outl[u0.len() + p]);
            assert(s_outl[u0.len() + p] == s_trail[u0.len() + p]);
            assert(s_trail[u0.len() + p] == s_cat[u0.len() + p]);
            assert(s_cat[u0.len() + p] == s_root[u0.len() + p]);
            assert(s_root[u0.len() + p] == s_pages[u0.len() + p]);
            assert(s_pages[u0.len() + p] == s_repar[u0.len() + p]);
            assert(s_repar[u0.len() + p].1 matches Object::Dict(dd) && (post0[u0.len() + p].1
                matches Object::Dict(pd) && crate::object::dict_rebound(
                pd@,
                dd@,
                "Parent"@,
                Object::Ref(pid_fin),
            )));
            assert(pref[u0.len() + p] == pv0[p]);
            assert(crate::renumber::obj_renumbered(
                store_ids(pref),
                1,
                pref[u0.len() + p].1,
                post0[u0.len() + p].1,
            ));
            let pdv = post0[u0.len() + p].1->Dict_0;
            assert(crate::renumber::dict_renumbered(
                store_ids(pref),
                1,
                pv0[p].1->Dict_0@,
                pdv@,
            ));
            assert(crate::object::dict_rebound(
                pdv@,
                store_value(fin, page_fin@[i])->Dict_0@,
                "Parent"@,
                Object::Ref(pid_fin),
            ));
            assert(store_value(doc.objects@, page_fin@[i]) == store_value(fin, page_fin@[i]));
            assert(page_compacted(pv0, kids@, page_fin@, doc, pid_fin, store_ids(pref), i));
        }
        assert(compacted_ok(u0, pv0, kids@, doc, page_fin@, pid_fin, store_ids(pref)));
        // dense serials: pairwise distinct ids, and the counter is the
        // store's length
        assert forall|a: int, b: int| 0 <= a < b < fin.len() implies (#[trigger] fin[a]).0 != (
        #[trigger] fin[b]).0 by {
            assert(fin[a].0.num as int == 1 + a && fin[b].0.num as int == 1 + b);
        }
        assert(doc.max_id as int == fin.len());
        assert(doc.version@ == "1.5"@);
    }
    (doc, cid_fin, pid_fin, page_fin, og, Ghost(store_ids(pref)))
}

} // verus!

verus! {

/// The page ids the first `k` sources contribute, in source then
/// request order, under the ids their renumbering assigns: the
/// concatenation, across sources in input order, of each source's
/// resolved requests in requested order.
pub open spec fn spec_kids_mid(srcs: Seq<Source>, k: int) -> Seq<ObjectId>
    decreases k,
{
    if k <= 0 {
        Seq::empty()
    } else {
        spec_kids_mid(srcs, k - 1) + spec_mapped_resolved(
            srcs[k - 1],
            spec_source_start(srcs, k - 1),
        )
    }
}

/// The sum of the requested page numbers of the first `k` sources.
pub open spec fn spec_request_total(srcs: Seq<Source>, k: int) -> int
    decreases k,
{
    if k <= 0 {
        0
    } else {
        spec_request_total(srcs, k - 1) + srcs[k - 1].page_numbers@.len()
    }
}

/// Later prefixes of the resolved total only grow.
pub proof fn lemma_resolved_total_monotone(srcs: Seq<Source>, a: int, b: int)
    requires
        a <= b,
    ensures
        spec_resolved_total(srcs, a) <= spec_resolved_total(srcs, b),
    decreases b - a,
{
    if a < b {
        lemma_resolved_total_monotone(srcs, a, b - 1);
    }
}

/// Later prefixes of the request total only grow.
pub proof fn lemma_request_monotone(srcs: Seq<Source>, a: int, b: int)
    requires
        a <= b,
    ensures
        spec_request_total(srcs, a) <= spec_request_total(srcs, b),
    decreases b - a,
{
    if a < b {
        lemma_request_monotone(srcs, a, b - 1);
    }
}

/// The serials handed to later sources start past every earlier
/// source's range.
pub proof fn lemma_start_monotone(srcs: Seq<Source>, a: int, b: int)
    requires
        a <= b,
    ensures
        spec_source_start(srcs, a) <= spec_source_start(srcs, b),
    decreases b - a,
{
    if a < b {
        lemma_start_monotone(srcs, a, b - 1);
    }
}

/// The ids the merge's renumbering can assign to source `k`: the
/// contiguous block of serials beginning at that source's start.
pub open spec fn spec_assigned(srcs: Seq<Source>, k: int, id: ObjectId) -> bool {
    &&& id.gen == 0u16
    &&& spec_source_start(srcs, k) <= id.num as int
    &&& (id.num as int) < spec_source_start(srcs, k) + srcs[k].document.objects@.len()
}

/// Renumbering disjointness: the id blocks assigned to two distinct
/// sources processed in one merge never share an id.
pub proof fn lemma_renumber_disjointness(srcs: Seq<Source>, a: int, b: int, id: ObjectId)
    requires
        0 <= a < b < srcs.len(),
    ensures
        !(spec_assigned(srcs, a, id) && spec_assigned(srcs, b, id)),
{
    assert(spec_source_start(srcs, a + 1) == spec_source_start(srcs, a)
        + srcs[a].document.objects@.len());
    lemma_start_monotone(srcs, a + 1, b);
}

/// Merge the sources into one document: each source is renumbered
/// into a fresh id block, its requested pages are extracted in order,
/// its structural singletons fold into the first-seen Catalog and
/// Pages root, its outlines are dropped, and everything else is
/// carried. Missing page numbers are reported, never fatal; a merge
/// that finds no Catalog or no Pages root anywhere returns the
/// carried objects with `complete` false instead of failing.
#[verifier::rlimit(100)]
pub fn merge_documents(sources: Vec<Source>) -> (r: MergeOutcome)
    requires
        spec_source_start(sources@, sources@.len() as int) + sources@.len() + 3 <= u32::MAX
            as int,
        spec_request_total(sources@, sources@.len() as int) <= i64::MAX as int,
    ensures
        r.diagnostics.missing_pages@ == spec_missing_all(sources@, sources@.len() as int),
        r.complete == (spec_any_source(sources@, sources@.len() as int, "Catalog"@)
            && spec_any_source(sources@, sources@.len() as int, "Pages"@)),
        r.diagnostics.missing_catalog == !spec_any_source(
            sources@,
            sources@.len() as int,
            "Catalog"@,
        ),
        r.diagnostics.missing_pages_root == !spec_any_source(
            sources@,
            sources@.len() as int,
            "Pages"@,
        ),
        r.complete ==> {
            &&& (r.catalog matches Some(c) && r.pages_root matches Some(p) && merged_doc_ok(
                r.document,
                c,
                p,
                r.page_ids@,
                r.outline_root,
            ))
            &&& r.page_ids@.len() == spec_resolved_total(sources@, sources@.len() as int)
            &&& r.page_ids@.len() == spec_kids_mid(sources@, sources@.len() as int).len()
            &&& (forall|i: int, j: int|
                0 <= i < r.page_ids@.len() && 0 <= j < r.page_ids@.len() ==> ((
                #[trigger] r.page_ids@[i] == #[trigger] r.page_ids@[j]) <==> spec_kids_mid(
                    sources@,
                    sources@.len() as int,
                )[i] == spec_kids_mid(sources@, sources@.len() as int)[j]))
            &&& ((r.outline_root is Some) <==> r.page_ids@.len() > 0)
        },
        r.complete ==> (r.pages_root matches Some(p2) && merged_content_ok(
            sources@,
            r.document,
            r.page_ids@,
            p2,
            r.compaction@,
        )),
        !r.complete ==> {
            &&& r.catalog is None
            &&& r.pages_root is None
            &&& r.outline_root is None
            &&& r.page_ids@.len() == 0
            &&& forall|j: int|
                0 <= j < r.document.objects@.len() ==> not_special(
                    (#[trigger] r.document.objects@[j]).1,
                )
        },
{
    let ghost srcs = sources@;
    let mut rest = sources;
    let mut k: usize = 0;
    let mut next: u32 = 1;
    let mut unified: Vec<(ObjectId, Object)> = Vec::new();
    let mut pagevec: Vec<(ObjectId, Object)> = Vec::new();
    let mut kids: Vec<ObjectId> = Vec::new();
    let mut anchors: Vec<usize> = Vec::new();
    let mut missing: Vec<(usize, u32)> = Vec::new();
    let mut cat_id: Option<ObjectId> = None;
    let mut cat_dict: Vec<(String, Object)> = Vec::new();
    let mut pg_id: Option<ObjectId> = None;
    let mut pg_dict: Vec<(String, Object)> = Vec::new();
    proof {
        lemma_request_monotone(srcs, 0, srcs.len() as int);
    }
    while rest.len() > 0
        invariant
            k as int + rest@.len() == srcs.len(),
            forall|i: int| 0 <= i < rest@.len() ==> #[trigger] rest@[i] == srcs[k + i],
            next as int == spec_source_start(srcs, k as int),
            1 <= next,
            spec_source_start(srcs, srcs.len() as int) + srcs.len() + 3 <= u32::MAX as int,
            spec_request_total(srcs, srcs.len() as int) <= i64::MAX as int,
            acc_inv(unified@, pagevec@, cat_id, cat_dict@, pg_id, pg_dict@, next as int),
            kids_inv(kids@, pagevec@, next as int),
            forall|a: int| 0 <= a < anchors@.len() ==> (#[trigger] anchors@[a]) < kids@.len(),
            anchors@.len() > 0 <==> kids@.len() > 0,
            anchors@.len() <= k,
            kids@ == spec_kids_mid(srcs, k as int),
            kids@.len() == spec_resolved_total(srcs, k as int),
            kids@.len() <= spec_request_total(srcs, k as int),
            spec_request_total(srcs, k as int) <= spec_request_total(srcs, srcs.len() as int),
            missing@ == spec_missing_all(srcs, k as int),
            (cat_id is Some) == spec_any_source(srcs, k as int, "Catalog"@),
            (pg_id is Some) == spec_any_source(srcs, k as int, "Pages"@),
            unified@.len() + pagevec@.len() <= spec_source_start(srcs, k as int) - 1,
            forall|kk: int, id: ObjectId|
                0 <= kk < k as int && store_has(srcs[kk].document.objects@, id) && not_special(
                    store_value(srcs[kk].document.objects@, id),
                ) ==> #[trigger] carried_from(
                    srcs[kk].document,
                    spec_source_start(srcs, kk),
                    id,
                    unified@,
                ),
            forall|kk: int, x: int|
                #![trigger spec_resolved_of(srcs[kk])[x]]
                0 <= kk < k as int && 0 <= x < spec_resolved_of(srcs[kk]).len() ==> page_from(
                    srcs[kk].document,
                    spec_source_start(srcs, kk),
                    spec_resolved_of(srcs[kk])[x],
                    kids@[spec_resolved_total(srcs, kk) + x],
                    pagevec@,
                ),
        decreases rest@.len(),
    {
        let ghost rest0 = rest@;
        let src = rest.remove(0);
        proof {
            assert(rest@ =~= rest0.drop_first());
            assert(src == srcs[k as int]);
            lemma_start_monotone(srcs, k as int + 1, srcs.len() as int);
            assert(spec_source_start(srcs, k as int + 1) == spec_source_start(srcs, k as int)
                + srcs[k as int].document.objects@.len());
        }
        let ghost kids_before = kids@;
        let ghost missing_before = missing@;
        let ghost unified_b = unified@;
        let ghost pagevec_b = pagevec@;
        let ghost src_g = src;
        let ghost start_b = next;
        next = absorb_source(
            src,
            k,
            next,
            &mut unified,
            &mut pagevec,
            &mut kids,
            &mut anchors,
            &mut missing,
            &mut cat_id,
            &mut cat_dict,
            &mut pg_id,
            &mut pg_dict,
        );
        k = k + 1;
        proof {
            crate::pages::lemma_resolved_len(
                crate::pages::spec_page_ids(srcs[k - 1].document),
                srcs[k - 1].page_numbers@,
                0,
            );
            assert(spec_resolved_total(srcs, k as int) == spec_resolved_total(srcs, k as int - 1)
                + spec_resolved_of(srcs[k - 1]).len());
            assert(spec_request_total(srcs, k as int) == spec_request_total(srcs, k as int - 1)
                + srcs[k - 1].page_numbers@.len());
            assert(spec_missing_all(srcs, k as int) == spec_missing_all(srcs, k as int - 1)
                + spec_missing_of(srcs[k - 1]).map_values(|n: u32| ((k - 1) as usize, n)));
            assert(spec_missing_of(srcs[k - 1]).map_values(|n: u32| ((k - 1) as usize, n))
                =~= spec_missing_of(srcs[k - 1]).map_values(|n: u32| ((k - 1) as usize, n)));
            assert(missing@ =~= spec_missing_all(srcs, k as int));
            assert(kids@.len() == kids_before.len() + spec_resolved_of(srcs[k - 1]).len());
            assert(kids@ == spec_kids_mid(srcs, k as int));
            assert(spec_any_source(srcs, k as int, "Catalog"@) == (spec_any_source(
                srcs,
                k as int - 1,
                "Catalog"@,
            ) || spec_src_has_dict_type(srcs[k - 1].document, "Catalog"@)));
            assert(spec_any_source(srcs, k as int, "Pages"@) == (spec_any_source(
                srcs,
                k as int - 1,
                "Pages"@,
            ) || spec_src_has_dict_type(srcs[k - 1].document, "Pages"@)));
            lemma_start_monotone(srcs, k as int, srcs.len() as int);
            lemma_request_monotone(srcs, k as int, srcs.len() as int);
            assert(src_g == srcs[k as int - 1]);
            assert(start_b as int == spec_source_start(srcs, k as int - 1));
            assert(forall|id2: ObjectId|
                store_has(src_g.document.objects@, id2) && not_special(
                    store_value(src_g.document.objects@, id2),
                ) ==> #[trigger] carried_from(src_g.document, start_b as int, id2, unified@));
            // earlier sources' records stand untouched; this source's join
            assert forall|kk: int, id: ObjectId|
                0 <= kk < k as int && store_has(srcs[kk].document.objects@, id) && not_special(
                    store_value(srcs[kk].document.objects@, id),
                ) implies #[trigger] carried_from(
                srcs[kk].document,
                spec_source_start(srcs, kk),
                id,
                unified@,
            ) by {
                if kk == k as int - 1 {
                    assert(srcs[kk] == src_g);
                    assert(spec_source_start(srcs, kk) == start_b as int);
                    assert(store_has(src_g.document.objects@, id));
                    assert(not_special(store_value(src_g.document.objects@, id)));
                    assert(carried_from(src_g.document, start_b as int, id, unified@));
                } else {
                    assert(carried_from(
                        srcs[kk].document,
                        spec_source_start(srcs, kk),
                        id,
                        unified_b,
                    ));
                    let u = choose|u: int|
                        0 <= u < unified_b.len() && (#[trigger] unified_b[u]).0
                            == crate::renumber::renum_image(
                            store_ids(srcs[kk].document.objects@),
                            spec_source_start(srcs, kk),
                            id,
                        ) && crate::renumber::obj_renumbered(
                            store_ids(srcs[kk].document.objects@),
                            spec_source_start(srcs, kk),
                            store_value(srcs[kk].document.objects@, id),
                            unified_b[u].1,
                        );
                    assert(unified@[u] == unified_b[u]);
                    assert(carried_from(
                        srcs[kk].document,
                        spec_source_start(srcs, kk),
                        id,
                        unified@,
                    ));
                }
            }
            assert forall|kk: int, x: int|
                #![trigger spec_resolved_of(srcs[kk])[x]]
                0 <= kk < k as int && 0 <= x < spec_resolved_of(srcs[kk]).len() implies page_from(
                srcs[kk].document,
                spec_source_start(srcs, kk),
                spec_resolved_of(srcs[kk])[x],
                kids@[spec_resolved_total(srcs, kk) + x],
                pagevec@,
            ) by {
                let i = spec_resolved_total(srcs, kk) + x;
                lemma_resolved_total_monotone(srcs, 0, kk);
                if kk == k as int - 1 {
                    assert(srcs[kk] == src_g);
                    assert(spec_source_start(srcs, kk) == start_b as int);
                    assert(kids_before.len() == spec_resolved_total(srcs, k as int - 1));
                    assert(kids_before.len() <= i < kids@.len());
                    assert(spec_resolved_of(src_g)[i - kids_before.len()]
                        == spec_resolved_of(srcs[kk])[x]);
                    assert(page_from(
                        src_g.document,
                        start_b as int,
                        spec_resolved_of(src_g)[i - kids_before.len()],
                        kids@[i],
                        pagevec@,
                    ));
                } else {
                    lemma_resolved_total_monotone(srcs, kk + 1, k as int - 1);
                    assert(spec_resolved_total(srcs, kk) + x < spec_resolved_total(
                        srcs,
                        k as int - 1,
                    ));
                    assert(kids_before.len() == spec_resolved_total(srcs, k as int - 1));
                    assert(0 <= i < kids_before.len());
                    assert(kids@ == kids_before + spec_mapped_resolved(src_g, start_b as int));
                    assert((kids_before + spec_mapped_resolved(src_g, start_b as int))[i]
                        == kids_before[i]);
                    assert(kids@[i] == kids_before[i]);
                    assert(page_from(
                        srcs[kk].document,
                        spec_source_start(srcs, kk),
                        spec_resolved_of(srcs[kk])[x],
                        kids_before[i],
                        pagevec_b,
                    ));
                    let p = choose|p: int|
                        0 <= p < pagevec_b.len() && (#[trigger] pagevec_b[p]).0 == kids_before[i]
                            && crate::renumber::obj_renumbered(
                            store_ids(srcs[kk].document.objects@),
                            spec_source_start(srcs, kk),
                            store_value(
                                srcs[kk].document.objects@,
                                spec_resolved_of(srcs[kk])[x],
                            ),
                            pagevec_b[p].1,
                        );
                    assert(pagevec@[p] == pagevec_b[p]);
                    assert(page_from(
                        srcs[kk].document,
                        spec_source_start(srcs, kk),
                        spec_resolved_of(srcs[kk])[x],
                        kids@[i],
                        pagevec@,
                    ));
                }
            }
        }
    }
    proof {
        assert(k as int == srcs.len());
    }
    let missing_pages_root = pg_id.is_none();
    let missing_catalog = cat_id.is_none();
    let found_cat = match cat_id {
        Some(c) => Some(c),
        None => None,
    };
    let found_pg = match pg_id {
        Some(p) => Some(p),
        None => None,
    };
    if let (Some(cid), Some(pid)) = (found_cat, found_pg) {
        proof {
            lemma_start_monotone(srcs, k as int, srcs.len() as int);
        }
        let ghost unified_g = unified@;
        let ghost pagevec_g = pagevec@;
        let ghost kids_g = kids@;
        let ghost cat_dict_g = cat_dict@;
        let ghost pg_dict_g = pg_dict@;
        let (doc, cat_fin, pid_fin, page_fin, og, comp) = finalize(
            unified,
            pagevec,
            kids,
            anchors,
            cid,
            cat_dict,
            pid,
            pg_dict,
            next,
        );
        let ghost ids2c = comp@;
        proof {
            assert(compacted_ok(unified_g, pagevec_g, kids_g, doc, page_fin@, pid_fin, ids2c));
            assert(acc_inv(unified_g, pagevec_g, cat_id, cat_dict_g, pg_id, pg_dict_g, next as int));
            // every carried source object stands in the output, relabeled
            // into its block and then by the final compaction
            assert forall|kk: int, id: ObjectId|
                0 <= kk < srcs.len() && store_has(srcs[kk].document.objects@, id) && not_special(
                    store_value(srcs[kk].document.objects@, id),
                ) implies #[trigger] source_carried(srcs, kk, id, doc, ids2c) by {
                assert(carried_from(
                    srcs[kk].document,
                    spec_source_start(srcs, kk),
                    id,
                    unified_g,
                ));
                let u = choose|u: int|
                    0 <= u < unified_g.len() && (#[trigger] unified_g[u]).0
                        == crate::renumber::renum_image(
                        store_ids(srcs[kk].document.objects@),
                        spec_source_start(srcs, kk),
                        id,
                    ) && crate::renumber::obj_renumbered(
                        store_ids(srcs[kk].document.objects@),
                        spec_source_start(srcs, kk),
                        store_value(srcs[kk].document.objects@, id),
                        unified_g[u].1,
                    );
                assert(carried_compacted(unified_g, doc, ids2c, u));
                assert(store_has(doc.objects@, (ObjectId { num: (1 + u) as u32, gen: 0u16 })));
                assert(crate::renumber::obj_renumbered(
                    ids2c,
                    1,
                    unified_g[u].1,
                    store_value(doc.objects@, (ObjectId { num: (1 + u) as u32, gen: 0u16 })),
                ));
                assert(source_carried(srcs, kk, id, doc, ids2c));
            }
            // every resolved request's page stands at its position,
            // changed only in its Parent binding
            assert forall|kk: int, x: int|
                #![trigger spec_resolved_of(srcs[kk])[x]]
                0 <= kk < srcs.len() && 0 <= x < spec_resolved_of(srcs[kk]).len() implies
                source_page_carried(srcs, kk, x, doc, page_fin@, pid_fin, ids2c) by {
                let i = spec_resolved_total(srcs, kk) + x;
                lemma_resolved_total_monotone(srcs, 0, kk);
                lemma_resolved_total_monotone(srcs, kk + 1, srcs.len() as int);
                assert(spec_resolved_total(srcs, kk + 1) == spec_resolved_total(srcs, kk)
                    + spec_resolved_of(srcs[kk]).len());
                assert(0 <= i < kids_g.len());
                assert(page_from(
                    srcs[kk].document,
                    spec_source_start(srcs, kk),
                    spec_resolved_of(srcs[kk])[x],
                    kids_g[i],
                    pagevec_g,
                ));
                let p = choose|p: int|
                    0 <= p < pagevec_g.len() && (#[trigger] pagevec_g[p]).0 == kids_g[i]
                        && crate::renumber::obj_renumbered(
                        store_ids(srcs[kk].document.objects@),
                        spec_source_start(srcs, kk),
                        store_value(
                            srcs[kk].document.objects@,
                            spec_resolved_of(srcs[kk])[x],
                        ),
                        pagevec_g[p].1,
                    );
                assert(page_compacted(pagevec_g, kids_g, page_fin@, doc, pid_fin, ids2c, i));
                let p2 = choose|p2: int|
                    0 <= p2 < pagevec_g.len() && (#[trigger] pagevec_g[p2]).0 == kids_g[i] && (
                    pagevec_g[p2].1 matches Object::Dict(sd) && store_value(
                        doc.objects@,
                        page_fin@[i],
                    ) matches Object::Dict(fd) && exists|md: Seq<(String, Object)>|
                        crate::renumber::dict_renumbered(ids2c, 1, sd@, md)
                            && crate::object::dict_rebound(
                            md,
                            fd@,
                            "Parent"@,
                            Object::Ref(pid_fin),
                        ));
                assert(pagevec_g[p].0 == pagevec_g[p2].0);
                assert(p == p2);
                // the source page is a dictionary
                crate::pages::lemma_page_ids_elements(srcs[kk].document);
                crate::pages::lemma_resolved_elements(
                    crate::pages::spec_page_ids(srcs[kk].document),
                    srcs[kk].page_numbers@,
                    0,
                );
                assert(spec_resolved_of(srcs[kk])[x] == spec_resolved_from(
                    crate::pages::spec_page_ids(srcs[kk].document),
                    srcs[kk].page_numbers@,
                    0,
                )[x]);
                assert(spec_resolved_from(
                    crate::pages::spec_page_ids(srcs[kk].document),
                    srcs[kk].page_numbers@,
                    0,
                ).contains(spec_resolved_of(srcs[kk])[x]));
                assert(crate::pages::spec_page_ids(srcs[kk].document).contains(
                    spec_resolved_of(srcs[kk])[x],
                ));
                let sdsel = store_value(
                    srcs[kk].document.objects@,
                    spec_resolved_of(srcs[kk])[x],
                )->Dict_0;
                let mdsel = pagevec_g[p].1->Dict_0;
                assert(crate::renumber::dict_renumbered(
                    store_ids(srcs[kk].document.objects@),
                    spec_source_start(srcs, kk),
                    sdsel@,
                    mdsel@,
                ));
                let mdw = choose|md: Seq<(String, Object)>|
                    crate::renumber::dict_renumbered(ids2c, 1, mdsel@, md)
                        && crate::object::dict_rebound(
                        md,
                        store_value(doc.objects@, page_fin@[i])->Dict_0@,
                        "Parent"@,
                        Object::Ref(pid_fin),
                    );
                assert(crate::renumber::dict_renumbered(ids2c, 1, mdsel@, mdw));
                assert(source_page_carried(srcs, kk, x, doc, page_fin@, pid_fin, ids2c));
            }
            assert(merged_content_ok(srcs, doc, page_fin@, pid_fin, ids2c));
        }
        MergeOutcome {
            document: doc,
            diagnostics: Diagnostics {
                missing_pages: missing,
                missing_pages_root,
                missing_catalog,
            },
            complete: true,
            catalog: Some(cat_fin),
            pages_root: Some(pid_fin),
            page_ids: page_fin,
            outline_root: og,
            compaction: Ghost(ids2c),
        }
    } else {
        let mut doc = Document::with_version("1.5".to_string());
        doc.objects = unified;
        let m = if next > 0 {
            next - 1
        } else {
            0
        };
        doc.max_id = m;
        MergeOutcome {
            document: doc,
            diagnostics: Diagnostics {
                missing_pages: missing,
                missing_pages_root,
                missing_catalog,
            },
            complete: false,
            catalog: None,
            pages_root: None,
            page_ids: Vec::new(),
            outline_root: None,
            compaction: Ghost(Seq::empty()),
        }
    }
}

} // verus!
