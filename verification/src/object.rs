//! The PDF object model: object identifiers, object values, and
//! dictionary operations with first-binding-wins lookup semantics.

use vstd::prelude::*;

verus! {

/// The address of an indirect object: serial number and generation.
/// Identity — never structural equality of the addressed value — is the
/// merge key throughout.
#[derive(Clone, Copy, PartialEq, Eq, Structural, Debug)]
pub struct ObjectId {
    pub num: u32,
    pub gen: u16,
}

/// One PDF object value.
///
/// A `Ref` is a weak link into the owning document's store, never
/// ownership; cycle safety comes from the flat store, not from the
/// values. A dictionary is an ordered list of bindings; lookup takes the
/// first binding of a key.
pub enum Object {
    Null,
    Boolean(bool),
    Integer(i64),
    /// A real number, kept as the text of its decimal literal. The merge
    /// never computes with reals, it only carries them through.
    Real(String),
    /// A PDF string: arbitrary bytes.
    Text(Vec<u8>),
    Name(String),
    Array(Vec<Object>),
    Dict(Vec<(String, Object)>),
    Stream(Vec<(String, Object)>, Vec<u8>),
    Ref(ObjectId),
}

/// Index of the first binding of key `k` at or after position `i`,
/// or -1 when there is none.
pub open spec fn dict_first_index_from(d: Seq<(String, Object)>, k: Seq<char>, i: int) -> int
    decreases d.len() - i,
{
    if i < 0 || i >= d.len() {
        -1
    } else if d[i].0@ == k {
        i
    } else {
        dict_first_index_from(d, k, i + 1)
    }
}

/// Index of the first binding of key `k`, or -1 when there is none.
pub open spec fn dict_first_index(d: Seq<(String, Object)>, k: Seq<char>) -> int {
    dict_first_index_from(d, k, 0)
}

pub open spec fn dict_has(d: Seq<(String, Object)>, k: Seq<char>) -> bool {
    dict_first_index(d, k) >= 0
}

/// The value of the first binding of `k`.
pub open spec fn dict_value(d: Seq<(String, Object)>, k: Seq<char>) -> Object
    recommends
        dict_has(d, k),
{
    d[dict_first_index(d, k)].1
}

/// What `dict_first_index_from` returns: a position of `k` before which
/// `k` does not occur, or -1 exactly when `k` does not occur at all.
pub proof fn lemma_dict_first_index_from(d: Seq<(String, Object)>, k: Seq<char>, i: int)
    requires
        0 <= i <= d.len(),
    ensures
        dict_first_index_from(d, k, i) == -1 ==> forall|j: int|
            i <= j < d.len() ==> d[j].0@ != k,
        dict_first_index_from(d, k, i) != -1 ==> {
            let r = dict_first_index_from(d, k, i);
            &&& i <= r < d.len()
            &&& d[r].0@ == k
            &&& forall|j: int| i <= j < r ==> d[j].0@ != k
        },
    decreases d.len() - i,
{
    if i < d.len() && d[i].0@ != k {
        lemma_dict_first_index_from(d, k, i + 1);
    }
}

/// The facts of `lemma_dict_first_index_from` at position 0.
pub proof fn lemma_dict_first_index(d: Seq<(String, Object)>, k: Seq<char>)
    ensures
        !dict_has(d, k) ==> forall|j: int| 0 <= j < d.len() ==> d[j].0@ != k,
        dict_has(d, k) ==> {
            let r = dict_first_index(d, k);
            &&& 0 <= r < d.len()
            &&& d[r].0@ == k
            &&& forall|j: int| 0 <= j < r ==> d[j].0@ != k
        },
{
    lemma_dict_first_index_from(d, k, 0);
}

fn dict_find_from(d: &Vec<(String, Object)>, k: &String, i: usize) -> (r: Option<usize>)
    requires
        i <= d@.len(),
    ensures
        dict_first_index_from(d@, k@, i as int) >= 0 ==> (r matches Some(j) && j as int
            == dict_first_index_from(d@, k@, i as int)),
        dict_first_index_from(d@, k@, i as int) < 0 ==> r is None,
    decreases d@.len() - i,
{
    if i >= d.len() {
        None
    } else if d[i].0 == *k {
        Some(i)
    } else {
        dict_find_from(d, k, i + 1)
    }
}

/// Position of the first binding of `k`, if any.
pub fn dict_find(d: &Vec<(String, Object)>, k: &String) -> (r: Option<usize>)
    ensures
        dict_has(d@, k@) ==> (r matches Some(j) && j as int == dict_first_index(d@, k@)),
        !dict_has(d@, k@) ==> r is None,
{
    dict_find_from(d, k, 0)
}

/// The value bound to `k`, if any.
pub fn dict_get<'a>(d: &'a Vec<(String, Object)>, k: &String) -> (r: Option<&'a Object>)
    ensures
        dict_has(d@, k@) ==> (r matches Some(o) && *o == dict_value(d@, k@)),
        !dict_has(d@, k@) ==> r is None,
{
    proof {
        lemma_dict_first_index(d@, k@);
    }
    match dict_find(d, k) {
        Some(i) => Some(&d[i].1),
        None => None,
    }
}

/// Bind `k` to `v`: replace the value of the first binding of `k`, or
/// append a new binding when there is none.
pub fn dict_set(d: &mut Vec<(String, Object)>, k: String, v: Object)
    ensures
        dict_has(old(d)@, k@) ==> final(d)@ == old(d)@.update(
            dict_first_index(old(d)@, k@),
            (old(d)@[dict_first_index(old(d)@, k@)].0, v),
        ),
        !dict_has(old(d)@, k@) ==> final(d)@ == old(d)@.push((k, v)),
{
    proof {
        lemma_dict_first_index(d@, k@);
    }
    match dict_find(d, &k) {
        Some(i) => {
            let ghost before = d@;
            let mut entry = d.remove(i);
            entry.1 = v;
            d.insert(i, entry);
            proof {
                assert(d@ =~= before.update(i as int, (before[i as int].0, entry.1)));
            }
        },
        None => {
            d.push((k, v));
        },
    }
}

/// Drop the first binding of `k`, if any.
pub fn dict_remove(d: &mut Vec<(String, Object)>, k: &String)
    ensures
        dict_has(old(d)@, k@) ==> final(d)@ == old(d)@.remove(dict_first_index(old(d)@, k@)),
        !dict_has(old(d)@, k@) ==> final(d)@ == old(d)@,
{
    proof {
        lemma_dict_first_index(d@, k@);
    }
    match dict_find(d, k) {
        Some(i) => {
            d.remove(i);
        },
        None => {},
    }
}

/// The union of two dictionaries, bindings of `a` taking precedence:
/// each binding of `b` whose key `a` lacks is appended, in `b`'s order.
pub open spec fn dict_union_first(a: Seq<(String, Object)>, b: Seq<(String, Object)>) -> Seq<
    (String, Object),
>
    decreases b.len(),
{
    if b.len() == 0 {
        a
    } else {
        let a2 = if dict_has(a, b[0].0@) {
            a
        } else {
            a.push(b[0])
        };
        dict_union_first(a2, b.drop_first())
    }
}

/// Merge the bindings of `b` into `a`, bindings already in `a` taking
/// precedence on key collision.
pub fn dict_extend_first(a: &mut Vec<(String, Object)>, b: Vec<(String, Object)>)
    ensures
        final(a)@ == dict_union_first(old(a)@, b@),
{
    let mut rest = b;
    while rest.len() > 0
        invariant
            dict_union_first(a@, rest@) == dict_union_first(old(a)@, b@),
        decreases rest@.len(),
    {
        let ghost rest0 = rest@;
        let entry = rest.remove(0);
        proof {
            assert(rest@ =~= rest0.drop_first());
        }
        match dict_find(a, &entry.0) {
            Some(_) => {},
            None => {
                a.push(entry);
            },
        }
    }
}

/// The declared type of an object: the name bound to "Type" in a
/// dictionary or stream dictionary, if any.
pub open spec fn spec_type_of(o: Object) -> Option<Seq<char>> {
    match o {
        Object::Dict(d) => spec_dict_type(d@),
        Object::Stream(d, _) => spec_dict_type(d@),
        _ => None,
    }
}

pub open spec fn spec_dict_type(d: Seq<(String, Object)>) -> Option<Seq<char>> {
    if dict_has(d, "Type"@) {
        match dict_value(d, "Type"@) {
            Object::Name(n) => Some(n@),
            _ => None,
        }
    } else {
        None
    }
}

/// The declared type of an object, as `spec_type_of` states it.
pub fn type_of<'a>(o: &'a Object) -> (r: Option<&'a String>)
    ensures
        spec_type_of(*o) matches Some(t) ==> (r matches Some(n) && n@ == t),
        spec_type_of(*o) is None ==> r is None,
{
    let d: &Vec<(String, Object)> = match o {
        Object::Dict(d) => d,
        Object::Stream(d, _) => d,
        _ => { return None; },
    };
    let key = "Type".to_string();
    match dict_get(d, &key) {
        Some(Object::Name(n)) => Some(n),
        _ => None,
    }
}

} // verus!

verus! {

/// The structural names this library reads and writes, pairwise
/// distinct; stated once so that every dictionary proof can cite it.
pub proof fn lemma_keys_distinct()
    ensures
        "Type"@ != "Title"@ && "Type"@ != "Dest"@ && "Type"@ != "C"@ && "Type"@ != "Parent"@
            && "Type"@ != "Prev"@ && "Type"@ != "Next"@ && "Type"@ != "First"@ && "Type"@
            != "Last"@ && "Type"@ != "Count"@ && "Type"@ != "Kids"@ && "Type"@ != "Root"@
            && "Type"@ != "Pages"@ && "Type"@ != "Outlines"@,
        "Title"@ != "Dest"@ && "Title"@ != "C"@ && "Title"@ != "Parent"@ && "Title"@ != "Prev"@
            && "Title"@ != "Next"@,
        "Dest"@ != "C"@ && "Dest"@ != "Parent"@ && "Dest"@ != "Prev"@ && "Dest"@ != "Next"@,
        "C"@ != "Parent"@ && "C"@ != "Prev"@ && "C"@ != "Next"@,
        "Parent"@ != "Prev"@ && "Parent"@ != "Next"@ && "Parent"@ != "Count"@ && "Parent"@
            != "Kids"@,
        "Prev"@ != "Next"@,
        "First"@ != "Last"@ && "First"@ != "Count"@,
        "Last"@ != "Count"@,
        "Kids"@ != "Count"@,
        "Catalog"@ != "Pages"@ && "Catalog"@ != "Page"@ && "Catalog"@ != "Outlines"@ && "Catalog"@
            != "Outline"@,
        "Pages"@ != "Page"@ && "Pages"@ != "Outlines"@ && "Pages"@ != "Outline"@,
        "Page"@ != "Outlines"@ && "Page"@ != "Outline"@,
        "Outlines"@ != "Outline"@,
{
    reveal_strlit("Type");
    reveal_strlit("Title");
    reveal_strlit("Dest");
    reveal_strlit("C");
    reveal_strlit("Parent");
    reveal_strlit("Prev");
    reveal_strlit("Next");
    reveal_strlit("First");
    reveal_strlit("Last");
    reveal_strlit("Count");
    reveal_strlit("Kids");
    reveal_strlit("Root");
    reveal_strlit("Catalog");
    reveal_strlit("Pages");
    reveal_strlit("Page");
    reveal_strlit("Outlines");
    reveal_strlit("Outline");
    assert("Type"@.len() == 4 && "Title"@.len() == 5 && "Dest"@.len() == 4 && "C"@.len() == 1
        && "Parent"@.len() == 6 && "Prev"@.len() == 4 && "Next"@.len() == 4 && "First"@.len() == 5
        && "Last"@.len() == 4 && "Count"@.len() == 5 && "Kids"@.len() == 4 && "Root"@.len() == 4
        && "Catalog"@.len() == 7 && "Pages"@.len() == 5 && "Page"@.len() == 4 && "Outlines"@.len()
        == 8 && "Outline"@.len() == 7);
    assert("Type"@[0] == 'T' && "Dest"@[0] == 'D' && "Prev"@[0] == 'P' && "Next"@[0] == 'N'
        && "Last"@[0] == 'L' && "Kids"@[0] == 'K' && "Root"@[0] == 'R' && "Page"@[0] == 'P'
        && "Title"@[0] == 'T' && "First"@[0] == 'F' && "Count"@[0] == 'C' && "Pages"@[0] == 'P'
        && "Catalog"@[0] == 'C' && "Outline"@[0] == 'O');
    assert("Title"@[1] == 'i' && "First"@[1] == 'i' && "Count"@[1] == 'o' && "Pages"@[1] == 'a');
    assert("Prev"@[1] == 'r' && "Page"@[1] == 'a' && "Type"@[1] == 'y' && "Dest"@[1] == 'e');
    assert("Catalog"@[1] == 'a' && "Outline"@[1] == 'u');
}

/// Two dictionaries with the same keys, position for position, agree
/// on every first-binding index.
pub proof fn lemma_dict_fi_same_keys(
    a: Seq<(String, Object)>,
    b: Seq<(String, Object)>,
    k: Seq<char>,
    i: int,
)
    requires
        a.len() == b.len(),
        forall|j: int| 0 <= j < a.len() ==> (#[trigger] a[j]).0@ == b[j].0@,
    ensures
        dict_first_index_from(a, k, i) == dict_first_index_from(b, k, i),
    decreases a.len() - i,
{
    if 0 <= i < a.len() && a[i].0@ != k {
        lemma_dict_fi_same_keys(a, b, k, i + 1);
    }
}

/// How appending one binding moves the first-binding index: an
/// existing binding keeps its index; a fresh key is found at the end,
/// or still missing.
pub proof fn lemma_dict_fi_push(d: Seq<(String, Object)>, e: (String, Object), k: Seq<char>, i: int)
    requires
        0 <= i <= d.len(),
    ensures
        dict_first_index_from(d, k, i) >= 0 ==> dict_first_index_from(d.push(e), k, i)
            == dict_first_index_from(d, k, i),
        dict_first_index_from(d, k, i) < 0 && e.0@ == k ==> dict_first_index_from(d.push(e), k, i)
            == d.len(),
        dict_first_index_from(d, k, i) < 0 && e.0@ != k ==> dict_first_index_from(d.push(e), k, i)
            < 0,
    decreases d.len() - i,
{
    if i < d.len() {
        assert(d.push(e)[i] == d[i]);
        if d[i].0@ != k {
            lemma_dict_fi_push(d, e, k, i + 1);
        }
    } else {
        assert(d.push(e).len() == d.len() + 1);
        assert(d.push(e)[d.len() as int] == e);
        assert(dict_first_index_from(d.push(e), k, d.len() as int + 1) == -1);
    }
}

/// What `dict_set` leaves behind, over the spec expressions its
/// contract names: `k` is now bound to `v`, every other key exactly as
/// it was.
pub proof fn lemma_dict_set_effect(
    pre: Seq<(String, Object)>,
    post: Seq<(String, Object)>,
    k: Seq<char>,
    v: Object,
)
    requires
        dict_has(pre, k) ==> post == pre.update(
            dict_first_index(pre, k),
            (pre[dict_first_index(pre, k)].0, v),
        ),
        !dict_has(pre, k) ==> {
            &&& post.len() == pre.len() + 1
            &&& post[pre.len() as int].0@ == k
            &&& post[pre.len() as int].1 == v
            &&& forall|j: int| 0 <= j < pre.len() ==> post[j] == pre[j]
        },
    ensures
        dict_has(post, k),
        dict_value(post, k) == v,
        post.len() == pre.len() + if dict_has(pre, k) {
            0int
        } else {
            1int
        },
        forall|k2: Seq<char>|
            k2 != k ==> #[trigger] dict_has(post, k2) == dict_has(pre, k2) && (dict_has(pre, k2)
                ==> dict_value(post, k2) == dict_value(pre, k2)),
{
    lemma_dict_first_index(pre, k);
    if dict_has(pre, k) {
        let fi = dict_first_index(pre, k);
        assert forall|k2: Seq<char>| true implies dict_first_index(post, k2) == dict_first_index(
            pre,
            k2,
        ) by {
            lemma_dict_fi_same_keys(pre, post, k2, 0);
        }
        lemma_dict_first_index(post, k);
        assert forall|k2: Seq<char>| k2 != k && dict_has(pre, k2) implies dict_value(post, k2)
            == dict_value(pre, k2) by {
            lemma_dict_first_index(pre, k2);
            assert(dict_first_index(pre, k2) != fi);
        }
    } else {
        let e = post[pre.len() as int];
        assert(post =~= pre.push(e));
        assert forall|k2: Seq<char>| true implies #[trigger] dict_has(post, k2) == (dict_has(
            pre,
            k2,
        ) || k2 == k) by {
            lemma_dict_fi_push(pre, e, k2, 0);
        }
        assert forall|k2: Seq<char>| k2 != k && dict_has(pre, k2) implies dict_value(post, k2)
            == dict_value(pre, k2) by {
            lemma_dict_fi_push(pre, e, k2, 0);
            lemma_dict_first_index(pre, k2);
        }
        lemma_dict_fi_push(pre, e, k, 0);
    }
}


/// Dropping the first binding of one position whose key is not `k2`
/// does not change whether `k2` is bound, nor its value.
pub proof fn lemma_dict_remove_preserves(pre: Seq<(String, Object)>, ri: int, k2: Seq<char>)
    requires
        0 <= ri < pre.len(),
        pre[ri].0@ != k2,
    ensures
        dict_has(pre.remove(ri), k2) == dict_has(pre, k2),
        dict_has(pre, k2) ==> dict_value(pre.remove(ri), k2) == dict_value(pre, k2),
    decreases pre.len(),
{
    let post = pre.remove(ri);
    if ri == 0 {
        assert(post =~= pre.drop_first());
        lemma_dict_fi_drop_first(pre, k2, 0);
        assert(dict_first_index_from(pre, k2, 0) == dict_first_index_from(pre, k2, 1));
        let f = dict_first_index_from(pre, k2, 1);
        if f >= 0 {
            lemma_dict_first_index_from(pre, k2, 1);
            assert(post[f - 1] == pre[f]);
        }
    } else {
        assert(pre.len() >= 2);
        assert(post.len() == pre.len() - 1);
        if pre[0].0@ == k2 {
            assert(post[0] == pre[0]);
            lemma_dict_first_index(pre, k2);
            lemma_dict_first_index(post, k2);
            assert(dict_first_index(pre, k2) == 0);
            assert(dict_first_index(post, k2) == 0);
        } else {
            let pt = pre.drop_first();
            assert(pt.remove(ri - 1) =~= post.drop_first());
            assert(pt[ri - 1] == pre[ri]);
            lemma_dict_remove_preserves(pt, ri - 1, k2);
            lemma_dict_fi_drop_first(pre, k2, 0);
            lemma_dict_fi_drop_first(post, k2, 0);
            assert(post[0] == pre[0]);
            assert(dict_first_index_from(pre, k2, 0) == dict_first_index_from(pre, k2, 1));
            assert(dict_first_index_from(post, k2, 0) == dict_first_index_from(post, k2, 1));
            let fp = dict_first_index_from(pre, k2, 1);
            let ft = dict_first_index_from(pt, k2, 0);
            if fp >= 0 {
                lemma_dict_first_index_from(pre, k2, 1);
                assert(pt[fp - 1] == pre[fp]);
                lemma_dict_first_index_from(pt, k2, 0);
                assert(ft == fp - 1);
            } else {
                lemma_dict_first_index_from(pre, k2, 1);
                lemma_dict_first_index_from(pt, k2, 0);
                if ft >= 0 {
                    assert(pt[ft] == pre[ft + 1]);
                    assert(false);
                }
            }
            let fq = dict_first_index_from(post.drop_first(), k2, 0);
            lemma_dict_first_index_from(post, k2, 1);
            lemma_dict_first_index_from(post.drop_first(), k2, 0);
            if dict_first_index_from(post, k2, 1) >= 0 {
                assert(dict_first_index_from(post, k2, 1) >= 1);
                assert(fq == dict_first_index_from(post, k2, 1) - 1);
            }
            if dict_has(pre, k2) {
                assert(dict_value(pt, k2) == dict_value(pre, k2));
                assert(dict_has(pt.remove(ri - 1), k2));
                assert(fq >= 0);
                lemma_dict_first_index_from(post, k2, 1);
                lemma_dict_first_index_from(post.drop_first(), k2, 0);
                assert(post.drop_first()[fq] == post[fq + 1]);
                assert(dict_value(post, k2) == post[dict_first_index_from(post, k2, 1)].1);
                assert(dict_value(post, k2) == dict_value(post.drop_first(), k2));
                assert(dict_value(post.drop_first(), k2) == dict_value(pt.remove(ri - 1), k2));
            } else {
                assert(!dict_has(pt, k2));
                assert(!dict_has(pt.remove(ri - 1), k2));
                if fq >= 0 {
                    lemma_dict_first_index_from(post.drop_first(), k2, 0);
                    assert(false);
                }
            }
        }
    }
}

/// The first-binding index of the tail of a dictionary: one less than
/// the index in the whole, scanning from the next position.
pub proof fn lemma_dict_fi_drop_first(d: Seq<(String, Object)>, k: Seq<char>, i: int)
    requires
        0 <= i,
        d.len() >= 1,
    ensures
        dict_first_index_from(d, k, i + 1) >= 0 ==> dict_first_index_from(d.drop_first(), k, i)
            == dict_first_index_from(d, k, i + 1) - 1,
        dict_first_index_from(d, k, i + 1) < 0 ==> dict_first_index_from(d.drop_first(), k, i) < 0,
    decreases d.len() - i,
{
    if i < d.len() - 1 {
        assert(d.drop_first()[i] == d[i + 1]);
        if d[i + 1].0@ != k {
            lemma_dict_fi_drop_first(d, k, i + 1);
        }
    }
}

/// Every binding of `a` survives `dict_union_first(a, b)` untouched.
pub proof fn lemma_dict_union_preserves(
    a: Seq<(String, Object)>,
    b: Seq<(String, Object)>,
    k: Seq<char>,
)
    requires
        dict_has(a, k),
    ensures
        dict_has(dict_union_first(a, b), k),
        dict_value(dict_union_first(a, b), k) == dict_value(a, k),
    decreases b.len(),
{
    if b.len() > 0 {
        let a2 = if dict_has(a, b[0].0@) {
            a
        } else {
            a.push(b[0])
        };
        if !dict_has(a, b[0].0@) {
            lemma_dict_fi_push(a, b[0], k, 0);
            lemma_dict_first_index(a, k);
        }
        lemma_dict_union_preserves(a2, b.drop_first(), k);
    }
}

} // verus!

verus! {

/// `post` is `pre` with `k` bound to `v` and nothing else changed:
/// the first binding of `k` replaced, or a fresh binding appended.
/// This is precisely what `dict_set` leaves behind.
pub open spec fn dict_rebound(
    pre: Seq<(String, Object)>,
    post: Seq<(String, Object)>,
    k: Seq<char>,
    v: Object,
) -> bool {
    if dict_has(pre, k) {
        post == pre.update(dict_first_index(pre, k), (pre[dict_first_index(pre, k)].0, v))
    } else {
        &&& post.len() == pre.len() + 1
        &&& post[pre.len() as int].0@ == k
        &&& post[pre.len() as int].1 == v
        &&& forall|j: int| 0 <= j < pre.len() ==> post[j] == pre[j]
    }
}

/// Drop every binding of `k`, leaving every other key exactly as it
/// was.
pub fn dict_remove_all(d: &mut Vec<(String, Object)>, k: &String)
    ensures
        !dict_has(final(d)@, k@),
        forall|k2: Seq<char>|
            k2 != k@ ==> #[trigger] dict_has(final(d)@, k2) == dict_has(old(d)@, k2) && (
            dict_has(old(d)@, k2) ==> dict_value(final(d)@, k2) == dict_value(old(d)@, k2)),
{
    let mut go = true;
    while go
        invariant
            forall|k2: Seq<char>|
                k2 != k@ ==> #[trigger] dict_has(d@, k2) == dict_has(old(d)@, k2) && (dict_has(
                    old(d)@,
                    k2,
                ) ==> dict_value(d@, k2) == dict_value(old(d)@, k2)),
            !go ==> !dict_has(d@, k@),
        decreases d@.len(), (if go {
            1int
        } else {
            0int
        }),
    {
        proof {
            lemma_dict_first_index(d@, k@);
        }
        let ghost before = d@;
        match dict_find(d, k) {
            Some(i) => {
                d.remove(i);
                proof {
                    assert(d@ == before.remove(i as int));
                    assert forall|k2: Seq<char>| k2 != k@ implies #[trigger] dict_has(d@, k2)
                        == dict_has(before, k2) && (dict_has(before, k2) ==> dict_value(d@, k2)
                        == dict_value(before, k2)) by {
                        lemma_dict_remove_preserves(before, i as int, k2);
                    }
                }
            },
            None => {
                go = false;
            },
        }
    }
}

} // verus!
