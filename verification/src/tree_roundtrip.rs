use vstd::prelude::*;
use crate::convert::{document_tree, tree_text};
use crate::model::{SpecBlock, SpecError, SpecErrorKind};
use crate::parse::parse_document;
use crate::render::render;
use crate::roundtrip::{law_parsed_blocks_well_formed, parsed_block_ok, well_formed_block};
use crate::chars::lemma_combining_mark_above_ascii;
use crate::syntax::{is_name_continue, normalize_type, valid_main, valid_name};
use crate::text::{first_index, join_on, lacks, lemma_first_index_range, lemma_normalize_id, split_on};
use crate::tree_build::{attach, chain, leaf};
use crate::tree_collect::{
    before, block_of, collect_entries, collect_items, collect_object, collect_value, concat_results,
    extract_meta, insert_sorted, sort_items, tagged, tree_blocks, Collected,
};
use crate::tree_insert::{
    build_tree, child_objects, children, deepest, deepest_from, dots, find_key, insert_block,
    lemma_deepest_bounds, lemma_find_key, lemma_locate_valid, locate, locate_value, obj_at,
    object_indices, objects_of, set_at, split_name, valid_path, Step,
};
use crate::tree_laws::{law_built_tree_sorted, lemma_obj_at_sorted, obj_sorted, tree_sorted};
use crate::tree_meta::{
    and_then_meta, apply_meta, content_field, has_meta, insert_meta, is_reserved, meta_key, order_field,
    tag_field, type_field,
};
use crate::tree_model::{
    key_lt, lemma_key_lt_irreflexive, lemma_key_lt_transitive, lemma_obj_set_at, obj_get, obj_insert,
    obj_remove, obj_set, sorted_keys, TreeModel,
};

verus! {

/// `b` is `a` with `e` put in at some position.
pub open spec fn inserted(a: Seq<Collected>, b: Seq<Collected>, e: Collected) -> bool {
    exists|q: int| 0 <= q <= a.len() && #[trigger] a.insert(q, e) == b
}

/// Both collections succeed, and the second is the first with `e` put in.
pub open spec fn grows(r1: Result<Seq<Collected>, SpecErrorKind>, r2: Result<Seq<Collected>, SpecErrorKind>, e: Collected) -> bool {
    &&& r1 is Ok
    &&& r2 is Ok
    &&& inserted(r1->Ok_0, r2->Ok_0, e)
}

proof fn lemma_inserted_at(a: Seq<Collected>, e: Collected, q: int)
    requires
        0 <= q <= a.len(),
    ensures
        inserted(a, a.insert(q, e), e),
{
}

proof fn lemma_inserted_frame(a: Seq<Collected>, b: Seq<Collected>, e: Collected, x: Seq<Collected>, y: Seq<Collected>)
    requires
        inserted(a, b, e),
    ensures
        inserted(x + a + y, x + b + y, e),
{
    let q = choose|q: int| 0 <= q <= a.len() && #[trigger] a.insert(q, e) == b;
    assert((x + a + y).insert(x.len() + q, e) =~= x + b + y);
}

proof fn lemma_grows_left(x: Seq<Collected>, r1: Result<Seq<Collected>, SpecErrorKind>, r2: Result<Seq<Collected>, SpecErrorKind>, e: Collected)
    requires
        grows(r1, r2, e),
    ensures
        grows(concat_results(Ok(x), r1), concat_results(Ok(x), r2), e),
{
    lemma_inserted_frame(r1->Ok_0, r2->Ok_0, e, x, Seq::empty());
    assert(x + r1->Ok_0 + Seq::<Collected>::empty() =~= x + r1->Ok_0);
    assert(x + r2->Ok_0 + Seq::<Collected>::empty() =~= x + r2->Ok_0);
}

proof fn lemma_grows_right(r1: Result<Seq<Collected>, SpecErrorKind>, r2: Result<Seq<Collected>, SpecErrorKind>, y: Result<Seq<Collected>, SpecErrorKind>, e: Collected)
    requires
        grows(r1, r2, e),
        y is Ok,
    ensures
        grows(concat_results(r1, y), concat_results(r2, y), e),
{
    lemma_inserted_frame(r1->Ok_0, r2->Ok_0, e, Seq::empty(), y->Ok_0);
    assert(Seq::<Collected>::empty() + r1->Ok_0 + y->Ok_0 =~= r1->Ok_0 + y->Ok_0);
    assert(Seq::<Collected>::empty() + r2->Ok_0 + y->Ok_0 =~= r2->Ok_0 + y->Ok_0);
}

proof fn lemma_entries_cons(x: (Seq<char>, TreeModel), r: Seq<(Seq<char>, TreeModel)>, j: int, is_root: bool, path: Seq<Seq<char>>, p: Seq<char>)
    requires
        0 <= j,
    ensures
        collect_entries(seq![x] + r, j + 1, is_root, path, p) == collect_entries(r, j, is_root, path, p),
    decreases r.len() - j,
{
    if j < r.len() {
        lemma_entries_cons(x, r, j + 1, is_root, path, p);
        assert((seq![x] + r)[j + 1] == r[j]);
    }
}

proof fn lemma_entries_tail(o: Seq<(Seq<char>, TreeModel)>, o2: Seq<(Seq<char>, TreeModel)>, j: int, is_root: bool, path: Seq<Seq<char>>, p: Seq<char>)
    requires
        0 <= j,
        o2.len() == o.len(),
        forall|m: int| j <= m < o.len() ==> o2[m] == o[m],
    ensures
        collect_entries(o2, j, is_root, path, p) == collect_entries(o, j, is_root, path, p),
    decreases o.len() - j,
{
    if j < o.len() {
        lemma_entries_tail(o, o2, j + 1, is_root, path, p);
        assert(o2[j] == o[j]);
    }
}

proof fn lemma_items_tail(items: Seq<TreeModel>, items2: Seq<TreeModel>, j: int, path: Seq<Seq<char>>, p: Seq<char>)
    requires
        0 <= j,
        items2.len() == items.len(),
        forall|m: int| j <= m < items.len() ==> items2[m] == items[m],
    ensures
        collect_items(items2, j, path, p) == collect_items(items, j, path, p),
    decreases items.len() - j,
{
    if j < items.len() {
        lemma_items_tail(items, items2, j + 1, path, p);
        assert(items2[j] == items[j]);
    }
}

/// Replacing the value of a plain entry so that its collection grows by `e`
/// grows the collection of the entries by `e`.
proof fn lemma_entries_update(o: Seq<(Seq<char>, TreeModel)>, i: int, v2: TreeModel, j: int, is_root: bool, path: Seq<Seq<char>>, p: Seq<char>, e: Collected)
    requires
        0 <= j <= i < o.len(),
        !is_reserved(o[i].0, p),
        collect_entries(o, j, is_root, path, p) is Ok,
        grows(collect_value(o[i].1, path.push(o[i].0), p), collect_value(v2, path.push(o[i].0), p), e),
    ensures
        grows(collect_entries(o, j, is_root, path, p), collect_entries(o.update(i, (o[i].0, v2)), j, is_root, path, p), e),
    decreases i - j,
{
    let o2 = o.update(i, (o[i].0, v2));
    if j == i {
        lemma_entries_tail(o, o2, i + 1, is_root, path, p);
        assert(o2[i] == (o[i].0, v2));
        lemma_grows_right(
            collect_value(o[i].1, path.push(o[i].0), p),
            collect_value(v2, path.push(o[i].0), p),
            collect_entries(o, i + 1, is_root, path, p),
            e,
        );
    } else {
        assert(o2[j] == o[j]);
        let key = o[j].0;
        if is_reserved(key, p) {
            lemma_entries_update(o, i, v2, j + 1, is_root, path, p, e);
        } else {
            let part = collect_value(o[j].1, path.push(key), p);
            lemma_entries_update(o, i, v2, j + 1, is_root, path, p, e);
            lemma_grows_left(
                part->Ok_0,
                collect_entries(o, j + 1, is_root, path, p),
                collect_entries(o2, j + 1, is_root, path, p),
                e,
            );
        }
    }
}

/// What an array element contributes to the collection of its array.
pub open spec fn item_part(x: TreeModel, path: Seq<Seq<char>>, p: Seq<char>) -> Result<Seq<Collected>, SpecErrorKind> {
    match x {
        TreeModel::Object(o) => collect_object(o, false, path, p),
        TreeModel::Array(_) => collect_value(x, path, p),
        _ => Err(SpecErrorKind::InvalidTree(crate::tree_meta::message("array at `", crate::tree_insert::dots(path), "` must contain objects"))),
    }
}

proof fn lemma_items_step(items: Seq<TreeModel>, j: int, path: Seq<Seq<char>>, p: Seq<char>)
    requires
        0 <= j < items.len(),
    ensures
        collect_items(items, j, path, p) == concat_results(item_part(items[j], path, p), collect_items(items, j + 1, path, p)),
{
}

/// Replacing an element so that its collection grows by `e` grows the
/// collection of the elements by `e`.
proof fn lemma_items_update(items: Seq<TreeModel>, i: int, v2: TreeModel, j: int, path: Seq<Seq<char>>, p: Seq<char>, e: Collected)
    requires
        0 <= j <= i < items.len(),
        collect_items(items, j, path, p) is Ok,
        grows(item_part(items[i], path, p), item_part(v2, path, p), e),
    ensures
        grows(collect_items(items, j, path, p), collect_items(items.update(i, v2), j, path, p), e),
    decreases i - j,
{
    let i2 = items.update(i, v2);
    lemma_items_step(items, j, path, p);
    lemma_items_step(i2, j, path, p);
    if j == i {
        lemma_items_tail(items, i2, i + 1, path, p);
        lemma_grows_right(item_part(items[i], path, p), item_part(v2, path, p), collect_items(items, i + 1, path, p), e);
    } else {
        assert(i2[j] == items[j]);
        lemma_items_update(items, i, v2, j + 1, path, p, e);
        lemma_grows_left(
            item_part(items[j], path, p)->Ok_0,
            collect_items(items, j + 1, path, p),
            collect_items(i2, j + 1, path, p),
            e,
        );
    }
}

/// Appending an element appends its collection.
proof fn lemma_items_push(items: Seq<TreeModel>, x: TreeModel, j: int, path: Seq<Seq<char>>, p: Seq<char>)
    requires
        0 <= j <= items.len(),
        collect_items(items, j, path, p) is Ok,
        item_part(x, path, p) is Ok,
    ensures
        collect_items(items.push(x), j, path, p) == Ok::<Seq<Collected>, SpecErrorKind>(
            collect_items(items, j, path, p)->Ok_0 + item_part(x, path, p)->Ok_0,
        ),
    decreases items.len() - j,
{
    let i2 = items.push(x);
    if j == items.len() {
        lemma_items_step(i2, j, path, p);
        assert(i2[j] == x);
        assert(item_part(x, path, p)->Ok_0 + Seq::<Collected>::empty() =~= item_part(x, path, p)->Ok_0);
        assert(Seq::<Collected>::empty() + item_part(x, path, p)->Ok_0 =~= item_part(x, path, p)->Ok_0);
    } else {
        lemma_items_step(items, j, path, p);
        lemma_items_step(i2, j, path, p);
        assert(i2[j] == items[j]);
        lemma_items_push(items, x, j + 1, path, p);
        let a = item_part(items[j], path, p)->Ok_0;
        let b = collect_items(items, j + 1, path, p)->Ok_0;
        let c = item_part(x, path, p)->Ok_0;
        assert(a + (b + c) =~= (a + b) + c);
    }
}

proof fn lemma_meta_keys_differ(p: Seq<char>)
    ensures
        meta_key(p, type_field()) != meta_key(p, content_field()),
        meta_key(p, type_field()) != meta_key(p, tag_field()),
        meta_key(p, type_field()) != meta_key(p, order_field()),
        meta_key(p, content_field()) != meta_key(p, tag_field()),
        meta_key(p, content_field()) != meta_key(p, order_field()),
        meta_key(p, tag_field()) != meta_key(p, order_field()),
{
    assert(meta_key(p, type_field()).len() == p.len() + 4);
    assert(meta_key(p, content_field()).len() == p.len() + 7);
    assert(meta_key(p, tag_field()).len() == p.len() + 3);
    assert(meta_key(p, order_field()).len() == p.len() + 5);
}

proof fn lemma_get_update(o: Seq<(Seq<char>, TreeModel)>, i: int, v: TreeModel, k: Seq<char>)
    requires
        0 <= i < o.len(),
        k != o[i].0,
    ensures
        obj_get(o.update(i, (o[i].0, v)), k) == obj_get(o, k),
    decreases i,
{
    let o2 = o.update(i, (o[i].0, v));
    if i == 0 {
        assert(o2.drop_first() =~= o.drop_first());
    } else if o[0].0 != k {
        assert(o2.drop_first() =~= o.drop_first().update(i - 1, (o[i].0, v)));
        lemma_get_update(o.drop_first(), i - 1, v, k);
    }
}

proof fn lemma_get_insert_other(o: Seq<(Seq<char>, TreeModel)>, k: Seq<char>, v: TreeModel, k2: Seq<char>)
    requires
        k2 != k,
    ensures
        obj_get(obj_insert(o, k, v), k2) == obj_get(o, k2),
    decreases o.len(),
{
    let r = obj_insert(o, k, v);
    if o.len() == 0 {
        assert(r == seq![(k, v)]);
        assert(r[0].0 != k2);
        assert(r.drop_first() =~= Seq::<(Seq<char>, TreeModel)>::empty());
        assert(obj_get(r, k2) == obj_get(r.drop_first(), k2));
    } else if o[0].0 == k {
        assert(r == seq![(k, v)] + o.drop_first());
        assert(r[0].0 != k2);
        assert(r.drop_first() =~= o.drop_first());
        assert(obj_get(r, k2) == obj_get(r.drop_first(), k2));
    } else if key_lt(k, o[0].0) {
        assert(r == seq![(k, v)] + o);
        assert(r[0].0 != k2);
        assert(r.drop_first() =~= o);
        assert(obj_get(r, k2) == obj_get(r.drop_first(), k2));
    } else {
        lemma_get_insert_other(o.drop_first(), k, v, k2);
        assert(r == seq![o[0]] + obj_insert(o.drop_first(), k, v));
        assert(r[0] == o[0]);
        assert(r.drop_first() =~= obj_insert(o.drop_first(), k, v));
    }
}

proof fn lemma_get_insert_same(o: Seq<(Seq<char>, TreeModel)>, k: Seq<char>, v: TreeModel)
    ensures
        obj_get(obj_insert(o, k, v), k) == Some(v),
    decreases o.len(),
{
    if o.len() > 0 && o[0].0 != k && !key_lt(k, o[0].0) {
        lemma_get_insert_same(o.drop_first(), k, v);
        assert((seq![o[0]] + obj_insert(o.drop_first(), k, v)).drop_first() =~= obj_insert(o.drop_first(), k, v));
    }
}

/// An object's own block depends only on its meta fields.
proof fn lemma_block_of_same(o: Seq<(Seq<char>, TreeModel)>, o2: Seq<(Seq<char>, TreeModel)>, path: Seq<Seq<char>>, p: Seq<char>)
    requires
        obj_get(o2, meta_key(p, type_field())) == obj_get(o, meta_key(p, type_field())),
        obj_get(o2, meta_key(p, content_field())) == obj_get(o, meta_key(p, content_field())),
        obj_get(o2, meta_key(p, tag_field())) == obj_get(o, meta_key(p, tag_field())),
        obj_get(o2, meta_key(p, order_field())) == obj_get(o, meta_key(p, order_field())),
    ensures
        block_of(o2, path, p) == block_of(o, path, p),
{
    assert(extract_meta(o2, p) == extract_meta(o, p));
}

/// Replacing the value of a plain entry so that its collection grows by `e`
/// grows the collection of the object by `e`.
proof fn lemma_object_update(o: Seq<(Seq<char>, TreeModel)>, i: int, v2: TreeModel, is_root: bool, path: Seq<Seq<char>>, p: Seq<char>, e: Collected)
    requires
        0 <= i < o.len(),
        !is_reserved(o[i].0, p),
        collect_object(o, is_root, path, p) is Ok,
        grows(collect_value(o[i].1, path.push(o[i].0), p), collect_value(v2, path.push(o[i].0), p), e),
    ensures
        grows(collect_object(o, is_root, path, p), collect_object(o.update(i, (o[i].0, v2)), is_root, path, p), e),
{
    let o2 = o.update(i, (o[i].0, v2));
    lemma_entries_update(o, i, v2, 0, is_root, path, p, e);
    if !is_root {
        lemma_get_update(o, i, v2, meta_key(p, type_field()));
        lemma_get_update(o, i, v2, meta_key(p, content_field()));
        lemma_get_update(o, i, v2, meta_key(p, tag_field()));
        lemma_get_update(o, i, v2, meta_key(p, order_field()));
        lemma_block_of_same(o, o2, path, p);
    }
    let first = if is_root { Ok(Seq::<Collected>::empty()) } else { block_of(o, path, p) };
    lemma_grows_left(first->Ok_0, collect_entries(o, 0, is_root, path, p), collect_entries(o2, 0, is_root, path, p), e);
}

/// A new plain entry whose collection is just `e` grows the collection of the
/// entries by `e`.
proof fn lemma_entries_insert_new(o: Seq<(Seq<char>, TreeModel)>, k: Seq<char>, v: TreeModel, is_root: bool, path: Seq<Seq<char>>, p: Seq<char>, e: Collected)
    requires
        obj_get(o, k) is None,
        !is_reserved(k, p),
        collect_entries(o, 0, is_root, path, p) is Ok,
        collect_value(v, path.push(k), p) == Ok::<Seq<Collected>, SpecErrorKind>(seq![e]),
    ensures
        grows(collect_entries(o, 0, is_root, path, p), collect_entries(obj_insert(o, k, v), 0, is_root, path, p), e),
    decreases o.len(),
{
    let r = obj_insert(o, k, v);
    if o.len() == 0 {
        assert(r == seq![(k, v)]);
        lemma_entries_cons((k, v), Seq::empty(), 0, is_root, path, p);
        assert(seq![(k, v)] + Seq::<(Seq<char>, TreeModel)>::empty() =~= seq![(k, v)]);
        assert(seq![e] + Seq::<Collected>::empty() =~= seq![e]);
        lemma_inserted_at(Seq::empty(), e, 0);
        assert(Seq::<Collected>::empty().insert(0, e) =~= seq![e]);
    } else if key_lt(k, o[0].0) {
        assert(r == seq![(k, v)] + o);
        lemma_entries_cons((k, v), o, 0, is_root, path, p);
        let c = collect_entries(o, 0, is_root, path, p)->Ok_0;
        lemma_inserted_at(c, e, 0);
        assert(c.insert(0, e) =~= seq![e] + c);
    } else {
        let rest = o.drop_first();
        assert(o[0].0 != k);
        assert(o =~= seq![o[0]] + rest);
        assert(r == seq![o[0]] + obj_insert(rest, k, v));
        lemma_entries_cons(o[0], rest, 0, is_root, path, p);
        lemma_entries_cons(o[0], obj_insert(rest, k, v), 0, is_root, path, p);
        lemma_entries_insert_new(rest, k, v, is_root, path, p, e);
        let key = o[0].0;
        if !is_reserved(key, p) {
            lemma_grows_left(
                collect_value(o[0].1, path.push(key), p)->Ok_0,
                collect_entries(rest, 0, is_root, path, p),
                collect_entries(obj_insert(rest, k, v), 0, is_root, path, p),
                e,
            );
        }
    }
}

/// A new plain entry whose collection is just `e` grows the collection of the
/// object by `e`.
proof fn lemma_object_insert_new(o: Seq<(Seq<char>, TreeModel)>, k: Seq<char>, v: TreeModel, is_root: bool, path: Seq<Seq<char>>, p: Seq<char>, e: Collected)
    requires
        obj_get(o, k) is None,
        !is_reserved(k, p),
        collect_object(o, is_root, path, p) is Ok,
        collect_value(v, path.push(k), p) == Ok::<Seq<Collected>, SpecErrorKind>(seq![e]),
    ensures
        grows(collect_object(o, is_root, path, p), collect_object(obj_insert(o, k, v), is_root, path, p), e),
{
    let o2 = obj_insert(o, k, v);
    lemma_entries_insert_new(o, k, v, is_root, path, p, e);
    if !is_root {
        lemma_get_insert_other(o, k, v, meta_key(p, type_field()));
        lemma_get_insert_other(o, k, v, meta_key(p, content_field()));
        lemma_get_insert_other(o, k, v, meta_key(p, tag_field()));
        lemma_get_insert_other(o, k, v, meta_key(p, order_field()));
        lemma_block_of_same(o, o2, path, p);
    }
    let first = if is_root { Ok(Seq::<Collected>::empty()) } else { block_of(o, path, p) };
    lemma_grows_left(first->Ok_0, collect_entries(o, 0, is_root, path, p), collect_entries(o2, 0, is_root, path, p), e);
}

/// Setting a meta field leaves the collection of the entries of an inner
/// object unchanged.
proof fn lemma_entries_insert_meta(o: Seq<(Seq<char>, TreeModel)>, k: Seq<char>, v: TreeModel, path: Seq<Seq<char>>, p: Seq<char>)
    requires
        is_reserved(k, p),
    ensures
        collect_entries(obj_insert(o, k, v), 0, false, path, p) == collect_entries(o, 0, false, path, p),
    decreases o.len(),
{
    let r = obj_insert(o, k, v);
    if o.len() == 0 {
        lemma_entries_cons((k, v), Seq::empty(), 0, false, path, p);
        assert(seq![(k, v)] + Seq::<(Seq<char>, TreeModel)>::empty() =~= seq![(k, v)]);
    } else if o[0].0 == k {
        let rest = o.drop_first();
        assert(o =~= seq![o[0]] + rest);
        lemma_entries_cons((k, v), rest, 0, false, path, p);
        lemma_entries_cons(o[0], rest, 0, false, path, p);
    } else if key_lt(k, o[0].0) {
        lemma_entries_cons((k, v), o, 0, false, path, p);
    } else {
        let rest = o.drop_first();
        assert(o =~= seq![o[0]] + rest);
        lemma_entries_cons(o[0], rest, 0, false, path, p);
        lemma_entries_cons(o[0], obj_insert(rest, k, v), 0, false, path, p);
        lemma_entries_insert_meta(rest, k, v, path, p);
    }
}

/// The name that a block placed at the path `names` is read back with.
pub open spec fn full_name(names: Seq<Seq<char>>, tag: Option<Seq<char>>) -> Seq<char> {
    match tag {
        Some(t) => dots(names) + seq!['#'] + t,
        None => dots(names),
    }
}

/// What a block placed at the path `names` is read back as.
pub open spec fn item_at(names: Seq<Seq<char>>, tag: Option<Seq<char>>, b: SpecBlock, order: int) -> Collected {
    (SpecBlock { name: full_name(names, tag), ty: b.ty, content: b.content, paired: false }, Some(order))
}

/// Reading the block back at the path `names` succeeds and changes nothing.
pub open spec fn readable(b: SpecBlock, names: Seq<Seq<char>>, tag: Option<Seq<char>>, order: int) -> bool {
    &&& valid_name(full_name(names, tag))
    &&& normalize_type(b.ty) == Ok::<Seq<char>, SpecErrorKind>(b.ty)
    &&& lacks(b.content, '\r')
    &&& order >= 0
}

/// An object without meta fields collects nothing of its own.
proof fn lemma_no_meta_collect(o: Seq<(Seq<char>, TreeModel)>, path: Seq<Seq<char>>, p: Seq<char>)
    requires
        !has_meta(o, p),
    ensures
        block_of(o, path, p) == Ok::<Seq<Collected>, SpecErrorKind>(Seq::empty()),
        collect_object(o, false, path, p) == collect_entries(o, 0, false, path, p),
{
    if let Ok(c) = collect_entries(o, 0, false, path, p) {
        assert(Seq::<Collected>::empty() + c =~= c);
    }
}

/// Writing a block's meta fields into an object without any adds exactly the
/// block to what the object collects, in front.
proof fn lemma_apply_meta_collect(o: Seq<(Seq<char>, TreeModel)>, b: SpecBlock, order: int, tag: Option<Seq<char>>, path: Seq<Seq<char>>, p: Seq<char>)
    requires
        !has_meta(o, p),
        readable(b, path, tag, order),
        collect_object(o, false, path, p) is Ok,
    ensures
        apply_meta(o, b, order, tag, p) is Ok,
        collect_object(o, false, path, p) == collect_entries(o, 0, false, path, p),
        collect_object(apply_meta(o, b, order, tag, p)->Ok_0, false, path, p) == Ok::<Seq<Collected>, SpecErrorKind>(
            seq![item_at(path, tag, b, order)] + collect_entries(o, 0, false, path, p)->Ok_0,
        ),
{
    lemma_meta_keys_differ(p);
    lemma_no_meta_collect(o, path, p);
    let tk = meta_key(p, type_field());
    let ck = meta_key(p, content_field());
    let gk = meta_key(p, tag_field());
    let ok = meta_key(p, order_field());
    let tv = TreeModel::String(b.ty);
    let cv = TreeModel::String(b.content);
    let ov = TreeModel::Integer(order);
    let o1 = obj_insert(o, tk, tv);
    assert(insert_meta(o, tk, tv, p) == Ok::<Seq<(Seq<char>, TreeModel)>, SpecErrorKind>(o1));
    lemma_get_insert_other(o, tk, tv, ck);
    lemma_get_insert_other(o, tk, tv, gk);
    lemma_get_insert_other(o, tk, tv, ok);
    lemma_get_insert_same(o, tk, tv);
    let o2 = obj_insert(o1, ck, cv);
    assert(and_then_meta(Ok(o1), ck, cv, p) == Ok::<Seq<(Seq<char>, TreeModel)>, SpecErrorKind>(o2));
    lemma_get_insert_other(o1, ck, cv, tk);
    lemma_get_insert_other(o1, ck, cv, gk);
    lemma_get_insert_other(o1, ck, cv, ok);
    lemma_get_insert_same(o1, ck, cv);
    let o3 = obj_insert(o2, ok, ov);
    assert(and_then_meta(Ok(o2), ok, ov, p) == Ok::<Seq<(Seq<char>, TreeModel)>, SpecErrorKind>(o3));
    lemma_get_insert_other(o2, ok, ov, tk);
    lemma_get_insert_other(o2, ok, ov, ck);
    lemma_get_insert_other(o2, ok, ov, gk);
    lemma_get_insert_same(o2, ok, ov);
    lemma_entries_insert_meta(o, tk, tv, path, p);
    lemma_entries_insert_meta(o1, ck, cv, path, p);
    lemma_entries_insert_meta(o2, ok, ov, path, p);
    lemma_normalize_id(b.content);
    let c = collect_entries(o, 0, false, path, p)->Ok_0;
    match tag {
        Some(t) => {
            let gv = TreeModel::String(t);
            let o4 = obj_insert(o3, gk, gv);
            assert(and_then_meta(Ok(o3), gk, gv, p) == Ok::<Seq<(Seq<char>, TreeModel)>, SpecErrorKind>(o4));
            lemma_get_insert_other(o3, gk, gv, tk);
            lemma_get_insert_other(o3, gk, gv, ck);
            lemma_get_insert_other(o3, gk, gv, ok);
            lemma_get_insert_same(o3, gk, gv);
            lemma_entries_insert_meta(o3, gk, gv, path, p);
            assert(apply_meta(o, b, order, tag, p) == Ok::<Seq<(Seq<char>, TreeModel)>, SpecErrorKind>(o4));
            assert(block_of(o4, path, p) == Ok::<Seq<Collected>, SpecErrorKind>(seq![item_at(path, tag, b, order)]));
        },
        None => {
            assert(apply_meta(o, b, order, tag, p) == Ok::<Seq<(Seq<char>, TreeModel)>, SpecErrorKind>(o3));
            assert(block_of(o3, path, p) == Ok::<Seq<Collected>, SpecErrorKind>(seq![item_at(path, tag, b, order)]));
        },
    }
}

/// A fresh object for a block collects exactly the block.
proof fn lemma_leaf_collect(b: SpecBlock, order: int, tag: Option<Seq<char>>, path: Seq<Seq<char>>, p: Seq<char>)
    requires
        readable(b, path, tag, order),
    ensures
        leaf(b, order, tag, p) is Ok,
        collect_object(leaf(b, order, tag, p)->Ok_0, false, path, p) == Ok::<Seq<Collected>, SpecErrorKind>(seq![item_at(path, tag, b, order)]),
{
    let o = Seq::<(Seq<char>, TreeModel)>::empty();
    assert(!has_meta(o, p));
    lemma_no_meta_collect(o, path, p);
    lemma_apply_meta_collect(o, b, order, tag, path, p);
    assert(seq![item_at(path, tag, b, order)] + Seq::<Collected>::empty() =~= seq![item_at(path, tag, b, order)]);
}

/// A chain of plain keys down to an object that collects `e` collects `e`.
proof fn lemma_chain_collect(tail: Seq<Seq<char>>, lf: Seq<(Seq<char>, TreeModel)>, path: Seq<Seq<char>>, p: Seq<char>, e: Collected)
    requires
        forall|i: int| 0 <= i < tail.len() ==> !is_reserved(#[trigger] tail[i], p),
        chain(tail, lf, p) is Ok,
        collect_object(lf, false, path + tail, p) == Ok::<Seq<Collected>, SpecErrorKind>(seq![e]),
    ensures
        collect_value(chain(tail, lf, p)->Ok_0, path, p) == Ok::<Seq<Collected>, SpecErrorKind>(seq![e]),
    decreases tail.len(),
{
    if tail.len() == 0 {
        assert(path + tail =~= path);
    } else {
        let rest = tail.drop_first();
        assert forall|i: int| 0 <= i < rest.len() implies !is_reserved(#[trigger] rest[i], p) by {
            assert(rest[i] == tail[i + 1]);
        }
        assert(!is_reserved(tail[0], p));
        assert(path.push(tail[0]) + rest =~= path + tail);
        lemma_chain_collect(rest, lf, path.push(tail[0]), p, e);
        let inner = chain(rest, lf, p)->Ok_0;
        let o = seq![(tail[0], inner)];
        assert(chain(tail, lf, p) == Ok::<TreeModel, SpecErrorKind>(TreeModel::Object(o)));
        let none = Seq::<(Seq<char>, TreeModel)>::empty();
        assert(o.drop_first() =~= none);
        assert(obj_get(o, meta_key(p, type_field())) == obj_get(none, meta_key(p, type_field())));
        assert(obj_get(o, meta_key(p, content_field())) == obj_get(none, meta_key(p, content_field())));
        assert(obj_get(o, meta_key(p, tag_field())) == obj_get(none, meta_key(p, tag_field())));
        assert(obj_get(o, meta_key(p, order_field())) == obj_get(none, meta_key(p, order_field())));
        assert(!has_meta(o, p));
        lemma_no_meta_collect(o, path, p);
        assert(collect_entries(o, 1, false, path, p) == Ok::<Seq<Collected>, SpecErrorKind>(Seq::empty()));
        assert(seq![e] + Seq::<Collected>::empty() =~= seq![e]);
    }
}

/// Where the entry under `k` is.
proof fn lemma_get_index(o: Seq<(Seq<char>, TreeModel)>, k: Seq<char>) -> (i: int)
    requires
        obj_get(o, k) is Some,
    ensures
        0 <= i < o.len(),
        o[i].0 == k,
        o[i].1 == obj_get(o, k)->Some_0,
        forall|j: int| 0 <= j < i ==> o[j].0 != k,
    decreases o.len(),
{
    if o[0].0 == k {
        0
    } else {
        let r = lemma_get_index(o.drop_first(), k);
        assert(o[r + 1] == o.drop_first()[r]);
        assert forall|j: int| 0 <= j < r + 1 implies o[j].0 != k by {
            if j > 0 {
                assert(o[j] == o.drop_first()[j - 1]);
            }
        }
        r + 1
    }
}

/// In a sorted object, taking an entry out and putting it back under the same
/// key is setting it in place.
proof fn lemma_promote(o: Seq<(Seq<char>, TreeModel)>, k: Seq<char>, v: TreeModel)
    requires
        sorted_keys(o),
        obj_get(o, k) is Some,
    ensures
        obj_insert(obj_remove(o, k), k, v) == obj_set(o, k, v),
    decreases o.len(),
{
    let i = lemma_get_index(o, k);
    let rest = o.drop_first();
    assert forall|a: int, c: int| 0 <= a < c < rest.len() implies key_lt(#[trigger] rest[a].0, #[trigger] rest[c].0) by {
        assert(rest[a] == o[a + 1] && rest[c] == o[c + 1]);
    }
    if o[0].0 == k {
        assert(obj_remove(o, k) == rest);
        if rest.len() > 0 {
            assert(rest[0] == o[1]);
            assert(key_lt(o[0].0, o[1].0));
            lemma_key_lt_irreflexive(k);
            assert(rest[0].0 != k);
        }
    } else {
        assert(i > 0);
        assert(key_lt(o[0].0, o[i].0));
        lemma_key_lt_irreflexive(k);
        if key_lt(k, o[0].0) {
            lemma_key_lt_transitive(k, o[0].0, k);
        }
        assert(obj_get(rest, k) == obj_get(o, k));
        lemma_promote(rest, k, v);
        assert(obj_remove(o, k) == seq![o[0]] + obj_remove(rest, k));
        let r2 = seq![o[0]] + obj_remove(rest, k);
        assert(r2[0] == o[0]);
        assert(r2.drop_first() =~= obj_remove(rest, k));
        assert(obj_insert(r2, k, v) == seq![o[0]] + obj_insert(obj_remove(rest, k), k, v));
    }
}

/// What collects without failing, collects without failing in each plain entry.
proof fn lemma_entry_ok(o: Seq<(Seq<char>, TreeModel)>, j: int, i: int, is_root: bool, path: Seq<Seq<char>>, p: Seq<char>)
    requires
        0 <= j <= i < o.len(),
        !is_reserved(o[i].0, p),
        collect_entries(o, j, is_root, path, p) is Ok,
    ensures
        collect_value(o[i].1, path.push(o[i].0), p) is Ok,
    decreases i - j,
{
    if j < i {
        lemma_entry_ok(o, j + 1, i, is_root, path, p);
    }
}

/// What collects without failing, collects without failing in each element.
proof fn lemma_item_ok(items: Seq<TreeModel>, j: int, i: int, path: Seq<Seq<char>>, p: Seq<char>)
    requires
        0 <= j <= i < items.len(),
        collect_items(items, j, path, p) is Ok,
    ensures
        item_part(items[i], path, p) is Ok,
    decreases i - j,
{
    lemma_items_step(items, j, path, p);
    if j < i {
        lemma_item_ok(items, j + 1, i, path, p);
    }
}

/// Hanging a block under an object adds exactly the block to what the object
/// collects.
proof fn lemma_attach_collect(parent: Seq<(Seq<char>, TreeModel)>, is_root: bool, rem: Seq<Seq<char>>, b: SpecBlock, order: int, tag: Option<Seq<char>>, path: Seq<Seq<char>>, p: Seq<char>)
    requires
        attach(parent, is_root, rem, b, order, tag, p) is Ok,
        forall|i: int| 0 <= i < rem.len() ==> !is_reserved(#[trigger] rem[i], p),
        obj_sorted(parent),
        collect_object(parent, is_root, path, p) is Ok,
        readable(b, path + rem, tag, order),
    ensures
        grows(
            collect_object(parent, is_root, path, p),
            collect_object(attach(parent, is_root, rem, b, order, tag, p)->Ok_0, is_root, path, p),
            item_at(path + rem, tag, b, order),
        ),
    decreases rem.len(),
{
    let key = rem[0];
    let e = item_at(path + rem, tag, b, order);
    let kp = path.push(key);
    assert(!is_reserved(key, p));
    let result = attach(parent, is_root, rem, b, order, tag, p)->Ok_0;
    let pc = collect_object(parent, is_root, path, p);
    if rem.len() == 1 {
        assert(kp =~= path + rem);
        lemma_leaf_collect(b, order, tag, kp, p);
        let lf = leaf(b, order, tag, p)->Ok_0;
        match obj_get(parent, key) {
            Some(TreeModel::Object(o)) => {
                let i = lemma_get_index(parent, key);
                lemma_entry_ok(parent, 0, i, is_root, path, p);
                let co = collect_object(o, false, kp, p)->Ok_0;
                if has_meta(o, p) {
                    let v = TreeModel::Array(seq![TreeModel::Object(o), TreeModel::Object(lf)]);
                    lemma_promote(parent, key, v);
                    lemma_obj_set_at(parent, key, v, i);
                    assert(result == parent.update(i, (parent[i].0, v)));
                    let one = seq![TreeModel::Object(o)];
                    lemma_items_step(one, 0, kp, p);
                    assert(collect_items(one, 1, kp, p) == Ok::<Seq<Collected>, SpecErrorKind>(Seq::empty()));
                    assert(co + Seq::<Collected>::empty() =~= co);
                    lemma_items_push(one, TreeModel::Object(lf), 0, kp, p);
                    assert(one.push(TreeModel::Object(lf)) =~= seq![TreeModel::Object(o), TreeModel::Object(lf)]);
                    lemma_inserted_at(co, e, co.len() as int);
                    assert(co.insert(co.len() as int, e) =~= co + seq![e]);
                    lemma_object_update(parent, i, v, is_root, path, p, e);
                } else {
                    lemma_apply_meta_collect(o, b, order, tag, kp, p);
                    let o2 = apply_meta(o, b, order, tag, p)->Ok_0;
                    let v = TreeModel::Object(o2);
                    lemma_obj_set_at(parent, key, v, i);
                    assert(result == parent.update(i, (parent[i].0, v)));
                    lemma_inserted_at(co, e, 0);
                    assert(co.insert(0, e) =~= seq![e] + co);
                    lemma_object_update(parent, i, v, is_root, path, p, e);
                }
            },
            Some(TreeModel::Array(items)) => {
                let i = lemma_get_index(parent, key);
                lemma_entry_ok(parent, 0, i, is_root, path, p);
                let v = TreeModel::Array(items.push(TreeModel::Object(lf)));
                lemma_obj_set_at(parent, key, v, i);
                assert(result == parent.update(i, (parent[i].0, v)));
                lemma_items_push(items, TreeModel::Object(lf), 0, kp, p);
                let ci = collect_items(items, 0, kp, p)->Ok_0;
                lemma_inserted_at(ci, e, ci.len() as int);
                assert(ci.insert(ci.len() as int, e) =~= ci + seq![e]);
                lemma_object_update(parent, i, v, is_root, path, p, e);
            },
            None => {
                lemma_object_insert_new(parent, key, TreeModel::Object(lf), is_root, path, p, e);
            },
            Some(_) => {},
        }
    } else {
        let rest = rem.drop_first();
        assert(kp + rest =~= path + rem);
        assert forall|i: int| 0 <= i < rest.len() implies !is_reserved(#[trigger] rest[i], p) by {
            assert(rest[i] == rem[i + 1]);
        }
        lemma_leaf_collect(b, order, tag, path + rem, p);
        let lf = leaf(b, order, tag, p)->Ok_0;
        lemma_chain_collect(rest, lf, kp, p, e);
        let branch = chain(rest, lf, p)->Ok_0;
        match obj_get(parent, key) {
            Some(TreeModel::Object(o)) => {
                let i = lemma_get_index(parent, key);
                lemma_entry_ok(parent, 0, i, is_root, path, p);
                assert(tree_sorted(parent[i].1));
                lemma_attach_collect(o, false, rest, b, order, tag, kp, p);
                let o2 = attach(o, false, rest, b, order, tag, p)->Ok_0;
                let v = TreeModel::Object(o2);
                lemma_obj_set_at(parent, key, v, i);
                assert(result == parent.update(i, (parent[i].0, v)));
                lemma_object_update(parent, i, v, is_root, path, p, e);
            },
            Some(TreeModel::Array(items)) => {
                let i = lemma_get_index(parent, key);
                lemma_entry_ok(parent, 0, i, is_root, path, p);
                let v = TreeModel::Array(items.push(branch));
                lemma_obj_set_at(parent, key, v, i);
                assert(result == parent.update(i, (parent[i].0, v)));
                assert(branch is Object);
                lemma_items_push(items, branch, 0, kp, p);
                let ci = collect_items(items, 0, kp, p)->Ok_0;
                lemma_inserted_at(ci, e, ci.len() as int);
                assert(ci.insert(ci.len() as int, e) =~= ci + seq![e]);
                lemma_object_update(parent, i, v, is_root, path, p, e);
            },
            None => {
                lemma_object_insert_new(parent, key, branch, is_root, path, p, e);
            },
            Some(_) => {},
        }
    }
}

/// The keys of the entries that the steps go through.
pub open spec fn keys_along(v: TreeModel, path: Seq<Step>) -> Seq<Seq<char>>
    decreases path.len(),
{
    if path.len() == 0 {
        Seq::empty()
    } else {
        match (v, path[0]) {
            (TreeModel::Object(o), Step::Entry(i)) => if 0 <= i < o.len() {
                seq![o[i].0] + keys_along(o[i].1, path.drop_first())
            } else {
                Seq::empty()
            },
            (TreeModel::Array(items), Step::Item(j)) => if 0 <= j < items.len() {
                keys_along(items[j], path.drop_first())
            } else {
                Seq::empty()
            },
            _ => Seq::empty(),
        }
    }
}

/// No key along the steps is a meta key.
pub open spec fn plain_keys(ks: Seq<Seq<char>>, p: Seq<char>) -> bool {
    forall|i: int| 0 <= i < ks.len() ==> !is_reserved(#[trigger] ks[i], p)
}

proof fn lemma_plain_keys_tail(ks: Seq<Seq<char>>, p: Seq<char>)
    requires
        plain_keys(ks, p),
        ks.len() > 0,
    ensures
        plain_keys(ks.drop_first(), p),
        !is_reserved(ks[0], p),
{
    assert forall|i: int| 0 <= i < ks.drop_first().len() implies !is_reserved(#[trigger] ks.drop_first()[i], p) by {
        assert(ks.drop_first()[i] == ks[i + 1]);
    }
}

/// The object at the end of a path of plain keys collects without failing
/// when the whole value does.
proof fn lemma_obj_at_ok(v: TreeModel, path: Seq<Step>, names: Seq<Seq<char>>, p: Seq<char>)
    requires
        valid_path(v, path),
        plain_keys(keys_along(v, path), p),
        collect_value(v, names, p) is Ok,
    ensures
        collect_object(obj_at(v, path), false, names + keys_along(v, path), p) is Ok,
    decreases path.len(),
{
    if path.len() == 0 {
        assert(names + keys_along(v, path) =~= names);
    } else {
        match (v, path[0]) {
            (TreeModel::Object(o), Step::Entry(i)) => {
                let ks = keys_along(v, path);
                lemma_plain_keys_tail(ks, p);
                assert(ks.drop_first() =~= keys_along(o[i].1, path.drop_first()));
                lemma_entry_ok(o, 0, i, false, names, p);
                lemma_obj_at_ok(o[i].1, path.drop_first(), names.push(o[i].0), p);
                assert(names.push(o[i].0) + keys_along(o[i].1, path.drop_first()) =~= names + ks);
            },
            (TreeModel::Array(items), Step::Item(j)) => {
                lemma_item_ok(items, 0, j, names, p);
                assert(item_part(items[j], names, p) == collect_value(items[j], names, p));
                lemma_obj_at_ok(items[j], path.drop_first(), names, p);
            },
            _ => {},
        }
    }
}

/// Replacing the object at the end of a path of plain keys by one that
/// collects `e` more grows what the whole value collects by `e`.
proof fn lemma_set_at_collect(v: TreeModel, path: Seq<Step>, x: Seq<(Seq<char>, TreeModel)>, names: Seq<Seq<char>>, p: Seq<char>, e: Collected)
    requires
        valid_path(v, path),
        plain_keys(keys_along(v, path), p),
        collect_value(v, names, p) is Ok,
        grows(
            collect_object(obj_at(v, path), false, names + keys_along(v, path), p),
            collect_object(x, false, names + keys_along(v, path), p),
            e,
        ),
    ensures
        grows(collect_value(v, names, p), collect_value(set_at(v, path, x), names, p), e),
    decreases path.len(),
{
    if path.len() == 0 {
        assert(names + keys_along(v, path) =~= names);
    } else {
        let rest = path.drop_first();
        match (v, path[0]) {
            (TreeModel::Object(o), Step::Entry(i)) => {
                let ks = keys_along(v, path);
                lemma_plain_keys_tail(ks, p);
                assert(ks.drop_first() =~= keys_along(o[i].1, rest));
                lemma_entry_ok(o, 0, i, false, names, p);
                assert(names.push(o[i].0) + keys_along(o[i].1, rest) =~= names + ks);
                lemma_set_at_collect(o[i].1, rest, x, names.push(o[i].0), p, e);
                lemma_object_update(o, i, set_at(o[i].1, rest, x), false, names, p, e);
            },
            (TreeModel::Array(items), Step::Item(j)) => {
                lemma_item_ok(items, 0, j, names, p);
                let nv = set_at(items[j], rest, x);
                assert(item_part(items[j], names, p) == collect_value(items[j], names, p));
                lemma_set_at_collect(items[j], rest, x, names, p, e);
                assert(nv is Object || nv is Array);
                assert(item_part(nv, names, p) == collect_value(nv, names, p));
                lemma_items_update(items, j, nv, 0, names, p, e);
            },
            _ => {},
        }
    }
}

/// The root version: the root collects its entries only.
proof fn lemma_set_at_root_collect(o: Seq<(Seq<char>, TreeModel)>, path: Seq<Step>, x: Seq<(Seq<char>, TreeModel)>, p: Seq<char>, e: Collected)
    requires
        path.len() > 0,
        valid_path(TreeModel::Object(o), path),
        plain_keys(keys_along(TreeModel::Object(o), path), p),
        collect_object(o, true, Seq::empty(), p) is Ok,
        grows(
            collect_object(obj_at(TreeModel::Object(o), path), false, keys_along(TreeModel::Object(o), path), p),
            collect_object(x, false, keys_along(TreeModel::Object(o), path), p),
            e,
        ),
    ensures
        set_at(TreeModel::Object(o), path, x) is Object,
        grows(collect_object(o, true, Seq::empty(), p), collect_object(set_at(TreeModel::Object(o), path, x)->Object_0, true, Seq::empty(), p), e),
{
    let v = TreeModel::Object(o);
    let rest = path.drop_first();
    if let Step::Entry(i) = path[0] {
        let ks = keys_along(v, path);
        lemma_plain_keys_tail(ks, p);
        assert(ks.drop_first() =~= keys_along(o[i].1, rest));
        lemma_entry_ok(o, 0, i, true, Seq::empty(), p);
        assert(Seq::<Seq<char>>::empty().push(o[i].0) + keys_along(o[i].1, rest) =~= ks);
        lemma_set_at_collect(o[i].1, rest, x, Seq::<Seq<char>>::empty().push(o[i].0), p, e);
        lemma_object_update(o, i, set_at(o[i].1, rest, x), true, Seq::empty(), p, e);
    }
}

/// The root version of `lemma_obj_at_ok`.
proof fn lemma_root_obj_at_ok(o: Seq<(Seq<char>, TreeModel)>, path: Seq<Step>, p: Seq<char>)
    requires
        path.len() > 0,
        valid_path(TreeModel::Object(o), path),
        plain_keys(keys_along(TreeModel::Object(o), path), p),
        collect_object(o, true, Seq::empty(), p) is Ok,
    ensures
        collect_object(obj_at(TreeModel::Object(o), path), false, keys_along(TreeModel::Object(o), path), p) is Ok,
{
    let v = TreeModel::Object(o);
    let rest = path.drop_first();
    if let Step::Entry(i) = path[0] {
        let ks = keys_along(v, path);
        lemma_plain_keys_tail(ks, p);
        assert(ks.drop_first() =~= keys_along(o[i].1, rest));
        lemma_entry_ok(o, 0, i, true, Seq::empty(), p);
        lemma_obj_at_ok(o[i].1, rest, Seq::<Seq<char>>::empty().push(o[i].0), p);
        assert(Seq::<Seq<char>>::empty().push(o[i].0) + keys_along(o[i].1, rest) =~= ks);
    }
}

proof fn lemma_find_key_found(o: Seq<(Seq<char>, TreeModel)>, k: Seq<char>)
    ensures
        -1 <= find_key(o, k) < o.len(),
        0 <= find_key(o, k) ==> o[find_key(o, k)].0 == k,
    decreases o.len(),
{
    if o.len() > 0 && o[0].0 != k {
        lemma_find_key_found(o.drop_first(), k);
        if find_key(o.drop_first(), k) >= 0 {
            assert(o[find_key(o, k)] == o.drop_first()[find_key(o.drop_first(), k)]);
        }
    }
}

/// The steps that locate a path go through its keys.
proof fn lemma_locate_value_keys(v: TreeModel, full: Seq<Seq<char>>, index: int)
    requires
        0 <= index <= full.len(),
    ensures
        locate_value(v, full, index) matches Ok(path) ==> keys_along(v, path) == full.skip(index),
    decreases v,
{
    match v {
        TreeModel::Object(o) => {
            if index >= full.len() {
                assert(full.skip(index) =~= Seq::<Seq<char>>::empty());
            } else {
                let i = find_key(o, full[index]);
                lemma_find_key_found(o, full[index]);
                if 0 <= i < o.len() {
                    lemma_locate_value_keys(o[i].1, full, index + 1);
                    if let Ok(path) = locate_value(o[i].1, full, index + 1) {
                        let whole = seq![Step::Entry(i)] + path;
                        assert(whole[0] == Step::Entry(i));
                        assert(whole.drop_first() =~= path);
                        assert(seq![full[index]] + full.skip(index + 1) =~= full.skip(index));
                    }
                }
            }
        },
        TreeModel::Array(items) => {
            let ix = object_indices(items, 0);
            if ix.len() == 1 && 0 <= ix[0] < items.len() {
                lemma_locate_value_keys(items[ix[0]], full, index);
                if let Ok(path) = locate_value(items[ix[0]], full, index) {
                    let whole = seq![Step::Item(ix[0])] + path;
                    assert(whole[0] == Step::Item(ix[0]));
                    assert(whole.drop_first() =~= path);
                }
            }
        },
        _ => {},
    }
}

proof fn lemma_locate_keys(root: TreeModel, full: Seq<Seq<char>>)
    ensures
        locate(root, full) matches Ok(path) ==> keys_along(root, path) == full && (full.len() > 0 <==> path.len() > 0),
{
    if let TreeModel::Object(o) = root {
        if full.len() == 0 {
        } else {
            let i = find_key(o, full[0]);
            lemma_find_key_found(o, full[0]);
            if 0 <= i < o.len() {
                lemma_locate_value_keys(o[i].1, full, 1);
                if let Ok(path) = locate_value(o[i].1, full, 1) {
                    let whole = seq![Step::Entry(i)] + path;
                    assert(whole[0] == Step::Entry(i));
                    assert(whole.drop_first() =~= path);
                    assert(seq![full[0]] + full.skip(1) =~= full);
                }
            }
        }
    }
}

/// The segments of a block's main name.
pub open spec fn name_segments(name: Seq<char>) -> Seq<Seq<char>> {
    split_on(split_name(name).0, '.')
}

proof fn lemma_split_on_nonempty(s: Seq<char>, sep: char)
    ensures
        split_on(s, sep).len() > 0,
{
}

/// Placing a block in a tree adds exactly the block to what the tree collects.
proof fn lemma_insert_block_collect(t: TreeModel, b: SpecBlock, order: int, p: Seq<char>)
    requires
        t is Object,
        tree_sorted(t),
        collect_object(t->Object_0, true, Seq::empty(), p) is Ok,
        insert_block(t, b, order, p) is Ok,
        plain_keys(name_segments(b.name), p),
        readable(b, name_segments(b.name), split_name(b.name).1, order),
    ensures
        insert_block(t, b, order, p)->Ok_0 is Object,
        grows(
            collect_object(t->Object_0, true, Seq::empty(), p),
            collect_object(insert_block(t, b, order, p)->Ok_0->Object_0, true, Seq::empty(), p),
            item_at(name_segments(b.name), split_name(b.name).1, b, order),
        ),
{
    let o = t->Object_0;
    let main = split_name(b.name).0;
    let tag = split_name(b.name).1;
    let segs = split_on(main, '.');
    let d = deepest(t, segs);
    let n = segs.len() as int;
    lemma_split_on_nonempty(main, '.');
    lemma_deepest_bounds(t, segs);
    let e = item_at(segs, tag, b, order);
    let result = insert_block(t, b, order, p)->Ok_0;
    lemma_locate_valid(t, segs);
    lemma_locate_keys(t, segs);
    if d == n && locate(t, segs) is Ok && !has_meta(obj_at(t, locate(t, segs)->Ok_0), p) {
        let path = locate(t, segs)->Ok_0;
        let x = obj_at(t, path);
        lemma_root_obj_at_ok(o, path, p);
        lemma_apply_meta_collect(x, b, order, tag, segs, p);
        let x2 = apply_meta(x, b, order, tag, p)->Ok_0;
        let cx = collect_entries(x, 0, false, segs, p)->Ok_0;
        lemma_inserted_at(cx, e, 0);
        assert(cx.insert(0, e) =~= seq![e] + cx);
        lemma_set_at_root_collect(o, path, x2, p, e);
        assert(result == set_at(t, path, x2));
    } else {
        let pl = if d == n {
            n - 1
        } else {
            d
        };
        let pre = segs.take(pl);
        let rem = segs.skip(pl);
        lemma_locate_valid(t, pre);
        lemma_locate_keys(t, pre);
        let path = locate(t, pre)->Ok_0;
        let x = obj_at(t, path);
        let x2 = attach(x, pl == 0, rem, b, order, tag, p)->Ok_0;
        assert(result == set_at(t, path, x2));
        assert(pre + rem =~= segs);
        assert forall|i: int| 0 <= i < rem.len() implies !is_reserved(#[trigger] rem[i], p) by {
            assert(rem[i] == segs[pl + i]);
        }
        assert(plain_keys(pre, p)) by {
            assert forall|i: int| 0 <= i < pre.len() implies !is_reserved(#[trigger] pre[i], p) by {
                assert(pre[i] == segs[i]);
            }
        }
        if pl == 0 {
            assert(path.len() == 0);
            assert(x == o);
            assert(Seq::<Seq<char>>::empty() + rem =~= segs);
            lemma_attach_collect(o, true, rem, b, order, tag, Seq::empty(), p);
        } else {
            lemma_obj_at_sorted(t, path);
            lemma_root_obj_at_ok(o, path, p);
            lemma_attach_collect(x, false, rem, b, order, tag, pre, p);
            lemma_set_at_root_collect(o, path, x2, p, e);
        }
    }
}

proof fn lemma_join_split_on(s: Seq<char>, sep: char)
    ensures
        join_on(split_on(s, sep), sep) == s,
    decreases s.len(),
{
    let q = first_index(s, sep);
    lemma_first_index_range(s, sep);
    if 0 <= q < s.len() {
        let r = s.skip(q + 1);
        lemma_join_split_on(r, sep);
        lemma_split_on_nonempty(r, sep);
        let ps = split_on(s, sep);
        assert(ps =~= seq![s.take(q)] + split_on(r, sep));
        assert(ps.drop_first() =~= split_on(r, sep));
        assert(join_on(ps, sep) == s.take(q) + seq![sep] + join_on(split_on(r, sep), sep));
        assert(s =~= s.take(q) + seq![sep] + r);
    }
}

/// A block placed along its name segments is read back under its own name.
proof fn lemma_full_name(name: Seq<char>)
    ensures
        full_name(name_segments(name), split_name(name).1) == name,
{
    let q = first_index(name, '#');
    lemma_first_index_range(name, '#');
    lemma_join_split_on(split_name(name).0, '.');
    if q >= 0 {
        assert(name =~= name.take(q) + seq!['#'] + name.skip(q + 1));
    }
}

/// A block as reading a tree gives it back: without a closing line.
pub open spec fn read_back(b: SpecBlock) -> SpecBlock {
    SpecBlock { name: b.name, ty: b.ty, content: b.content, paired: false }
}

pub open spec fn read_item(b: SpecBlock, order: int) -> Collected {
    (read_back(b), Some(order))
}

/// The collection holds each block of `bs` once, with its position as order.
pub open spec fn holds_blocks(c: Seq<Collected>, bs: Seq<SpecBlock>) -> bool {
    &&& c.len() == bs.len()
    &&& forall|j: int| 0 <= j < c.len() ==> {
        &&& (#[trigger] c[j]).1 is Some
        &&& 0 <= c[j].1->Some_0 < bs.len()
        &&& c[j] == read_item(bs[c[j].1->Some_0], c[j].1->Some_0)
    }
    &&& forall|j1: int, j2: int| 0 <= j1 < j2 < c.len() ==> (#[trigger] c[j1]).1 != (#[trigger] c[j2]).1
}

/// The blocks can be read back from a tree under the meta prefix `p`.
pub open spec fn tree_ready(bs: Seq<SpecBlock>, p: Seq<char>) -> bool {
    &&& forall|k: int| 0 <= k < bs.len() ==> well_formed_block(#[trigger] bs[k])
    &&& forall|k: int| 0 <= k < bs.len() ==> plain_keys(name_segments(#[trigger] bs[k].name), p)
}

proof fn lemma_build_collect(bs: Seq<SpecBlock>, p: Seq<char>)
    requires
        tree_ready(bs, p),
        build_tree(bs, p) is Ok,
    ensures
        build_tree(bs, p)->Ok_0 is Object,
        collect_object(build_tree(bs, p)->Ok_0->Object_0, true, Seq::empty(), p) matches Ok(c) && holds_blocks(c, bs),
    decreases bs.len(),
{
    if bs.len() == 0 {
        let e = Seq::<(Seq<char>, TreeModel)>::empty();
        assert(collect_object(e, true, Seq::empty(), p) == Ok::<Seq<Collected>, SpecErrorKind>(Seq::empty()));
    } else {
        let prev = bs.drop_last();
        assert(tree_ready(prev, p)) by {
            assert forall|k: int| 0 <= k < prev.len() implies well_formed_block(#[trigger] prev[k]) by {
                assert(prev[k] == bs[k]);
            }
            assert forall|k: int| 0 <= k < prev.len() implies plain_keys(name_segments(#[trigger] prev[k].name), p) by {
                assert(prev[k] == bs[k]);
            }
        }
        lemma_build_collect(prev, p);
        let t = build_tree(prev, p)->Ok_0;
        law_built_tree_sorted(prev, p);
        let b = bs.last();
        let n = bs.len() - 1;
        assert(well_formed_block(bs[n]));
        assert(plain_keys(name_segments(bs[n].name), p));
        lemma_full_name(b.name);
        lemma_insert_block_collect(t, b, n, p);
        let c = collect_object(t->Object_0, true, Seq::empty(), p)->Ok_0;
        let c2 = collect_object(build_tree(bs, p)->Ok_0->Object_0, true, Seq::empty(), p)->Ok_0;
        let e = item_at(name_segments(b.name), split_name(b.name).1, b, n);
        assert(e == read_item(b, n));
        let q = choose|q: int| 0 <= q <= c.len() && #[trigger] c.insert(q, e) == c2;
        assert forall|j: int| 0 <= j < c2.len() implies {
            &&& (#[trigger] c2[j]).1 is Some
            &&& 0 <= c2[j].1->Some_0 < bs.len()
            &&& c2[j] == read_item(bs[c2[j].1->Some_0], c2[j].1->Some_0)
        } by {
            if j < q {
                assert(c2[j] == c[j]);
                assert(prev[c[j].1->Some_0] == bs[c[j].1->Some_0]);
            } else if j > q {
                assert(c2[j] == c[j - 1]);
                assert(prev[c[j - 1].1->Some_0] == bs[c[j - 1].1->Some_0]);
            }
        }
        assert forall|j1: int, j2: int| 0 <= j1 < j2 < c2.len() implies (#[trigger] c2[j1]).1 != (#[trigger] c2[j2]).1 by {
            if j1 < q {
                assert(c2[j1] == c[j1]);
                if j2 < q {
                    assert(c2[j2] == c[j2]);
                } else if j2 > q {
                    assert(c2[j2] == c[j2 - 1]);
                }
            } else if j1 == q {
                assert(c2[j2] == c[j2 - 1]);
            } else {
                assert(c2[j1] == c[j1 - 1]);
                assert(c2[j2] == c[j2 - 1]);
            }
        }
    }
}

pub open spec fn ord(x: (Collected, int)) -> int {
    x.0.1->Some_0
}

/// The orders strictly increase along the sequence.
pub open spec fn increasing(s: Seq<(Collected, int)>) -> bool {
    &&& forall|i: int| 0 <= i < s.len() ==> (#[trigger] s[i]).0.1 is Some
    &&& forall|i: int, j: int| 0 <= i < j < s.len() ==> ord(#[trigger] s[i]) < ord(#[trigger] s[j])
}

proof fn lemma_insert_sorted_keeps(s: Seq<(Collected, int)>, x: (Collected, int), pred: spec_fn((Collected, int)) -> bool)
    requires
        forall|i: int| 0 <= i < s.len() ==> pred(#[trigger] s[i]),
        pred(x),
    ensures
        insert_sorted(s, x).len() == s.len() + 1,
        forall|i: int| 0 <= i < insert_sorted(s, x).len() ==> pred(#[trigger] insert_sorted(s, x)[i]),
    decreases s.len(),
{
    if s.len() > 0 && !before(x, s[0]) {
        let rest = s.drop_first();
        assert forall|i: int| 0 <= i < rest.len() implies pred(#[trigger] rest[i]) by {
            assert(rest[i] == s[i + 1]);
        }
        lemma_insert_sorted_keeps(rest, x, pred);
        let r = insert_sorted(s, x);
        assert(r == seq![s[0]] + insert_sorted(rest, x));
        assert forall|i: int| 0 <= i < r.len() implies pred(#[trigger] r[i]) by {
            if i > 0 {
                assert(r[i] == insert_sorted(rest, x)[i - 1]);
            }
        }
    } else if s.len() > 0 {
        let r = insert_sorted(s, x);
        assert forall|i: int| 0 <= i < r.len() implies pred(#[trigger] r[i]) by {
            if i > 0 {
                assert(r[i] == s[i - 1]);
            }
        }
    }
}

proof fn lemma_sort_keeps(s: Seq<(Collected, int)>, pred: spec_fn((Collected, int)) -> bool)
    requires
        forall|i: int| 0 <= i < s.len() ==> pred(#[trigger] s[i]),
    ensures
        sort_items(s).len() == s.len(),
        forall|i: int| 0 <= i < sort_items(s).len() ==> pred(#[trigger] sort_items(s)[i]),
    decreases s.len(),
{
    if s.len() > 0 {
        let init = s.drop_last();
        assert forall|i: int| 0 <= i < init.len() implies pred(#[trigger] init[i]) by {
            assert(init[i] == s[i]);
        }
        lemma_sort_keeps(init, pred);
        lemma_insert_sorted_keeps(sort_items(init), s.last(), pred);
    }
}

proof fn lemma_insert_sorted_increasing(s: Seq<(Collected, int)>, x: (Collected, int))
    requires
        increasing(s),
        x.0.1 is Some,
        forall|i: int| 0 <= i < s.len() ==> ord(#[trigger] s[i]) != ord(x),
    ensures
        increasing(insert_sorted(s, x)),
    decreases s.len(),
{
    let r = insert_sorted(s, x);
    if s.len() == 0 {
    } else if before(x, s[0]) {
        assert(ord(x) < ord(s[0]));
        assert forall|i: int| 0 <= i < r.len() implies (#[trigger] r[i]).0.1 is Some by {
            if i > 0 {
                assert(r[i] == s[i - 1]);
            }
        }
        assert forall|i: int, j: int| 0 <= i < j < r.len() implies ord(#[trigger] r[i]) < ord(#[trigger] r[j]) by {
            assert(r[j] == s[j - 1]);
            if i > 0 {
                assert(r[i] == s[i - 1]);
            }
        }
    } else {
        let rest = s.drop_first();
        assert(ord(s[0]) < ord(x));
        assert(increasing(rest)) by {
            assert forall|i: int| 0 <= i < rest.len() implies (#[trigger] rest[i]).0.1 is Some by {
                assert(rest[i] == s[i + 1]);
            }
            assert forall|i: int, j: int| 0 <= i < j < rest.len() implies ord(#[trigger] rest[i]) < ord(#[trigger] rest[j]) by {
                assert(rest[i] == s[i + 1] && rest[j] == s[j + 1]);
            }
        }
        assert forall|i: int| 0 <= i < rest.len() implies ord(#[trigger] rest[i]) != ord(x) by {
            assert(rest[i] == s[i + 1]);
        }
        lemma_insert_sorted_increasing(rest, x);
        let s0 = ord(s[0]);
        let above = |y: (Collected, int)| y.0.1 is Some && s0 < ord(y);
        assert forall|i: int| 0 <= i < rest.len() implies above(#[trigger] rest[i]) by {
            assert(rest[i] == s[i + 1]);
        }
        lemma_insert_sorted_keeps(rest, x, above);
        let ir = insert_sorted(rest, x);
        assert(r == seq![s[0]] + ir);
        assert forall|i: int| 0 <= i < r.len() implies (#[trigger] r[i]).0.1 is Some by {
            if i > 0 {
                assert(r[i] == ir[i - 1]);
                assert(above(ir[i - 1]));
            }
        }
        assert forall|i: int, j: int| 0 <= i < j < r.len() implies ord(#[trigger] r[i]) < ord(#[trigger] r[j]) by {
            assert(r[j] == ir[j - 1]);
            assert(above(ir[j - 1]));
            if i > 0 {
                assert(r[i] == ir[i - 1]);
            }
        }
    }
}

proof fn lemma_sort_increasing(s: Seq<(Collected, int)>)
    requires
        forall|i: int| 0 <= i < s.len() ==> (#[trigger] s[i]).0.1 is Some,
        forall|i: int, j: int| 0 <= i < j < s.len() ==> ord(#[trigger] s[i]) != ord(#[trigger] s[j]),
    ensures
        increasing(sort_items(s)),
    decreases s.len(),
{
    if s.len() > 0 {
        let init = s.drop_last();
        let x = s.last();
        assert forall|i: int| 0 <= i < init.len() implies (#[trigger] init[i]).0.1 is Some by {
            assert(init[i] == s[i]);
        }
        assert forall|i: int, j: int| 0 <= i < j < init.len() implies ord(#[trigger] init[i]) != ord(#[trigger] init[j]) by {
            assert(init[i] == s[i] && init[j] == s[j]);
        }
        lemma_sort_increasing(init);
        let other = |y: (Collected, int)| ord(y) != ord(x);
        assert forall|i: int| 0 <= i < init.len() implies other(#[trigger] init[i]) by {
            assert(init[i] == s[i]);
        }
        lemma_sort_keeps(init, other);
        let si = sort_items(init);
        assert forall|i: int| 0 <= i < si.len() implies ord(#[trigger] si[i]) != ord(x) by {
            assert(other(si[i]));
        }
        lemma_insert_sorted_increasing(si, x);
    }
}

proof fn lemma_increasing_from_below(s: Seq<(Collected, int)>, i: int)
    requires
        increasing(s),
        0 <= i < s.len(),
        forall|j: int| 0 <= j < s.len() ==> 0 <= ord(#[trigger] s[j]),
    ensures
        i <= ord(s[i]),
    decreases i,
{
    if i > 0 {
        lemma_increasing_from_below(s, i - 1);
        assert(ord(s[i - 1]) < ord(s[i]));
    }
}

proof fn lemma_increasing_from_above(s: Seq<(Collected, int)>, i: int)
    requires
        increasing(s),
        0 <= i < s.len(),
        forall|j: int| 0 <= j < s.len() ==> ord(#[trigger] s[j]) < s.len(),
    ensures
        ord(s[i]) <= i,
    decreases s.len() - i,
{
    if i < s.len() - 1 {
        lemma_increasing_from_above(s, i + 1);
        assert(ord(s[i]) < ord(s[i + 1]));
    }
}

/// Blocks placed in a path tree are read back from it unchanged: when every
/// block is well formed and no segment of a block's name is a meta key,
/// building the tree succeeds, and reading it back gives the same blocks in
/// the same order, each as a block without a closing line.
pub proof fn law_tree_round_trip(bs: Seq<SpecBlock>, p: Seq<char>)
    requires
        tree_ready(bs, p),
    ensures
        build_tree(bs, p) is Ok,
        tree_blocks(build_tree(bs, p)->Ok_0, p) == Ok::<Seq<SpecBlock>, SpecErrorKind>(bs.map_values(|b: SpecBlock| read_back(b))),
{
    lemma_build_ok(bs, p);
    lemma_build_collect(bs, p);
    let c = collect_object(build_tree(bs, p)->Ok_0->Object_0, true, Seq::empty(), p)->Ok_0;
    let s = tagged(c);
    let n = bs.len();
    assert forall|i: int| 0 <= i < s.len() implies (#[trigger] s[i]).0.1 is Some by {
        assert(s[i].0 == c[i]);
    }
    assert forall|i: int, j: int| 0 <= i < j < s.len() implies ord(#[trigger] s[i]) != ord(#[trigger] s[j]) by {
        assert(s[i].0 == c[i] && s[j].0 == c[j]);
    }
    lemma_sort_increasing(s);
    let good = |y: (Collected, int)| y.0.1 is Some && 0 <= ord(y) < n && y.0 == read_item(bs[ord(y)], ord(y));
    assert forall|i: int| 0 <= i < s.len() implies good(#[trigger] s[i]) by {
        assert(s[i].0 == c[i]);
    }
    lemma_sort_keeps(s, good);
    let r = sort_items(s);
    assert forall|i: int| 0 <= i < r.len() implies ord(#[trigger] r[i]) == i by {
        assert forall|j: int| 0 <= j < r.len() implies 0 <= ord(#[trigger] r[j]) && ord(r[j]) < r.len() by {
            assert(good(r[j]));
        }
        lemma_increasing_from_below(r, i);
        lemma_increasing_from_above(r, i);
    }
    let out = r.map_values(|x: (Collected, int)| x.0.0);
    assert(out =~= bs.map_values(|b: SpecBlock| read_back(b))) by {
        assert forall|i: int| 0 <= i < out.len() implies out[i] == read_back(bs[i]) by {
            assert(good(r[i]));
            assert(ord(r[i]) == i);
        }
    }
}

proof fn lemma_object_indices(items: Seq<TreeModel>, from: int)
    requires
        0 <= from <= items.len(),
    ensures
        object_indices(items, from).len() == objects_of(items.skip(from)).len(),
        forall|k: int| 0 <= k < object_indices(items, from).len() ==> {
            &&& from <= #[trigger] object_indices(items, from)[k] < items.len()
            &&& items[object_indices(items, from)[k]] == TreeModel::Object(objects_of(items.skip(from))[k])
        },
    decreases items.len() - from,
{
    if from < items.len() {
        lemma_object_indices(items, from + 1);
        let sk = items.skip(from);
        assert(sk.drop_first() =~= items.skip(from + 1));
        assert(sk[0] == items[from]);
        let oi = object_indices(items, from);
        let oo = objects_of(sk);
        let oi1 = object_indices(items, from + 1);
        let oo1 = objects_of(items.skip(from + 1));
        if items[from] is Object {
            assert(oi =~= seq![from] + oi1);
            assert(oo =~= seq![items[from]->Object_0] + oo1);
            assert forall|k: int| 0 <= k < oi.len() implies {
                &&& from <= #[trigger] oi[k] < items.len()
                &&& items[oi[k]] == TreeModel::Object(oo[k])
            } by {
                if k > 0 {
                    assert(oi[k] == oi1[k - 1]);
                    assert(oo[k] == oo1[k - 1]);
                }
            }
        } else {
            assert(oi =~= oi1);
            assert(oo =~= oo1);
        }
    } else {
        assert(items.skip(from) =~= Seq::<TreeModel>::empty());
    }
}

/// A value with exactly one object directly under it.
proof fn lemma_unique_child(w: TreeModel)
    requires
        child_objects(Some(w)).len() == 1,
    ensures
        w is Object || w is Array,
        w is Object ==> w == TreeModel::Object(child_objects(Some(w))[0]),
        w is Array ==> {
            let ix = object_indices(w->Array_0, 0);
            &&& ix.len() == 1
            &&& 0 <= ix[0] < w->Array_0.len()
            &&& w->Array_0[ix[0]] == TreeModel::Object(child_objects(Some(w))[0])
        },
{
    if let TreeModel::Array(items) = w {
        lemma_object_indices(items, 0);
        assert(items.skip(0) =~= items);
    }
}

/// Where the segments lead to exactly one object each, locating them succeeds.
proof fn lemma_locate_value_ok(o: Seq<(Seq<char>, TreeModel)>, segs: Seq<Seq<char>>, idx: int, m: int)
    requires
        0 <= idx <= m <= segs.len(),
        deepest_from(seq![o], segs, idx) >= m,
    ensures
        locate_value(TreeModel::Object(o), segs.take(m), idx) is Ok,
    decreases m - idx,
{
    let full = segs.take(m);
    if idx < m {
        let s = segs[idx];
        assert(full[idx] == s);
        let next = children(seq![o], s);
        assert(seq![o].drop_first() =~= Seq::<Seq<(Seq<char>, TreeModel)>>::empty());
        assert(next == child_objects(obj_get(o, s)) + children(seq![o].drop_first(), s));
        assert(next.len() == 1);
        assert(next =~= child_objects(obj_get(o, s)));
        let w = obj_get(o, s)->Some_0;
        let i = lemma_get_index(o, s);
        lemma_find_key(o, s, i);
        lemma_unique_child(w);
        let o1 = next[0];
        assert(next =~= seq![o1]);
        lemma_locate_value_ok(o1, segs, idx + 1, m);
        if let TreeModel::Array(items) = w {
            let ix = object_indices(items, 0);
            assert(items[ix[0]] == TreeModel::Object(o1));
            assert(locate_value(w, full, idx + 1) is Ok);
        }
        assert(locate_value(o[i].1, full, idx + 1) is Ok);
    }
}

proof fn lemma_locate_ok(o: Seq<(Seq<char>, TreeModel)>, segs: Seq<Seq<char>>, m: int)
    requires
        0 <= m <= segs.len(),
        deepest(TreeModel::Object(o), segs) >= m,
    ensures
        locate(TreeModel::Object(o), segs.take(m)) is Ok,
{
    if m > 0 {
        lemma_locate_value_ok(o, segs, 0, m);
    }
}

/// Every plain entry holds an object or an array; meta entries may hold anything.
pub open spec fn shaped(v: TreeModel, p: Seq<char>) -> bool
    decreases v,
{
    match v {
        TreeModel::Object(o) => forall|i: int|
            #![trigger o[i]]
            0 <= i < o.len() ==> is_reserved(o[i].0, p) || ((o[i].1 is Object || o[i].1 is Array) && shaped(o[i].1, p)),
        TreeModel::Array(items) => forall|j: int| 0 <= j < items.len() ==> shaped(#[trigger] items[j], p),
        _ => true,
    }
}

pub open spec fn entry_shaped(e: (Seq<char>, TreeModel), p: Seq<char>) -> bool {
    is_reserved(e.0, p) || ((e.1 is Object || e.1 is Array) && shaped(e.1, p))
}

proof fn lemma_shaped_object(o: Seq<(Seq<char>, TreeModel)>, p: Seq<char>)
    ensures
        shaped(TreeModel::Object(o), p) <==> forall|i: int| 0 <= i < o.len() ==> entry_shaped(#[trigger] o[i], p),
{
}

proof fn lemma_insert_entries_keep(o: Seq<(Seq<char>, TreeModel)>, k: Seq<char>, v: TreeModel, pred: spec_fn((Seq<char>, TreeModel)) -> bool)
    requires
        forall|i: int| 0 <= i < o.len() ==> pred(#[trigger] o[i]),
        pred((k, v)),
    ensures
        forall|i: int| 0 <= i < obj_insert(o, k, v).len() ==> pred(#[trigger] obj_insert(o, k, v)[i]),
    decreases o.len(),
{
    let r = obj_insert(o, k, v);
    if o.len() == 0 {
    } else if o[0].0 == k {
        assert forall|i: int| 0 <= i < r.len() implies pred(#[trigger] r[i]) by {
            if i > 0 {
                assert(r[i] == o[i]);
            }
        }
    } else if key_lt(k, o[0].0) {
        assert forall|i: int| 0 <= i < r.len() implies pred(#[trigger] r[i]) by {
            if i > 0 {
                assert(r[i] == o[i - 1]);
            }
        }
    } else {
        let rest = o.drop_first();
        assert forall|i: int| 0 <= i < rest.len() implies pred(#[trigger] rest[i]) by {
            assert(rest[i] == o[i + 1]);
        }
        lemma_insert_entries_keep(rest, k, v, pred);
        let ir = obj_insert(rest, k, v);
        assert(r == seq![o[0]] + ir);
        assert forall|i: int| 0 <= i < r.len() implies pred(#[trigger] r[i]) by {
            if i > 0 {
                assert(r[i] == ir[i - 1]);
            }
        }
    }
}

proof fn lemma_insert_shaped(o: Seq<(Seq<char>, TreeModel)>, k: Seq<char>, v: TreeModel, p: Seq<char>)
    requires
        shaped(TreeModel::Object(o), p),
        entry_shaped((k, v), p),
    ensures
        shaped(TreeModel::Object(obj_insert(o, k, v)), p),
{
    lemma_shaped_object(o, p);
    lemma_shaped_object(obj_insert(o, k, v), p);
    let pred = |e: (Seq<char>, TreeModel)| entry_shaped(e, p);
    assert forall|i: int| 0 <= i < o.len() implies pred(#[trigger] o[i]) by {
        assert(entry_shaped(o[i], p));
    }
    lemma_insert_entries_keep(o, k, v, pred);
    assert forall|i: int| 0 <= i < obj_insert(o, k, v).len() implies entry_shaped(#[trigger] obj_insert(o, k, v)[i], p) by {
        assert(pred(obj_insert(o, k, v)[i]));
    }
}

proof fn lemma_update_shaped(o: Seq<(Seq<char>, TreeModel)>, i: int, v: TreeModel, p: Seq<char>)
    requires
        0 <= i < o.len(),
        shaped(TreeModel::Object(o), p),
        entry_shaped((o[i].0, v), p),
    ensures
        shaped(TreeModel::Object(o.update(i, (o[i].0, v))), p),
{
    let o2 = o.update(i, (o[i].0, v));
    lemma_shaped_object(o, p);
    lemma_shaped_object(o2, p);
    assert forall|j: int| 0 <= j < o2.len() implies entry_shaped(#[trigger] o2[j], p) by {
        if j != i {
            assert(o2[j] == o[j]);
        }
    }
}

/// Writing a block's meta fields into an object without any succeeds and keeps its shape.
pub(crate) proof fn lemma_apply_meta_ok(o: Seq<(Seq<char>, TreeModel)>, b: SpecBlock, order: int, tag: Option<Seq<char>>, p: Seq<char>)
    requires
        !has_meta(o, p),
    ensures
        apply_meta(o, b, order, tag, p) is Ok,
        shaped(TreeModel::Object(o), p) ==> shaped(TreeModel::Object(apply_meta(o, b, order, tag, p)->Ok_0), p),
{
    lemma_meta_keys_differ(p);
    let tk = meta_key(p, type_field());
    let ck = meta_key(p, content_field());
    let gk = meta_key(p, tag_field());
    let ok = meta_key(p, order_field());
    let tv = TreeModel::String(b.ty);
    let cv = TreeModel::String(b.content);
    let ov = TreeModel::Integer(order);
    let o1 = obj_insert(o, tk, tv);
    lemma_get_insert_other(o, tk, tv, ck);
    lemma_get_insert_other(o, tk, tv, gk);
    lemma_get_insert_other(o, tk, tv, ok);
    let o2 = obj_insert(o1, ck, cv);
    lemma_get_insert_other(o1, ck, cv, gk);
    lemma_get_insert_other(o1, ck, cv, ok);
    let o3 = obj_insert(o2, ok, ov);
    lemma_get_insert_other(o2, ok, ov, gk);
    assert(insert_meta(o, tk, tv, p) == Ok::<Seq<(Seq<char>, TreeModel)>, SpecErrorKind>(o1));
    assert(and_then_meta(Ok(o1), ck, cv, p) == Ok::<Seq<(Seq<char>, TreeModel)>, SpecErrorKind>(o2));
    assert(and_then_meta(Ok(o2), ok, ov, p) == Ok::<Seq<(Seq<char>, TreeModel)>, SpecErrorKind>(o3));
    if shaped(TreeModel::Object(o), p) {
        lemma_insert_shaped(o, tk, tv, p);
        lemma_insert_shaped(o1, ck, cv, p);
        lemma_insert_shaped(o2, ok, ov, p);
    }
    if let Some(t) = tag {
        let gv = TreeModel::String(t);
        assert(and_then_meta(Ok(o3), gk, gv, p) == Ok::<Seq<(Seq<char>, TreeModel)>, SpecErrorKind>(obj_insert(o3, gk, gv)));
        if shaped(TreeModel::Object(o), p) {
            lemma_insert_shaped(o3, gk, gv, p);
        }
    }
}

/// A chain of plain keys succeeds and is shaped when its end is.
proof fn lemma_chain_ok(tail: Seq<Seq<char>>, lf: Seq<(Seq<char>, TreeModel)>, p: Seq<char>)
    requires
        plain_keys(tail, p),
        shaped(TreeModel::Object(lf), p),
    ensures
        chain(tail, lf, p) is Ok,
        chain(tail, lf, p)->Ok_0 is Object,
        shaped(chain(tail, lf, p)->Ok_0, p),
    decreases tail.len(),
{
    if tail.len() > 0 {
        lemma_plain_keys_tail(tail, p);
        lemma_chain_ok(tail.drop_first(), lf, p);
        let inner = chain(tail.drop_first(), lf, p)->Ok_0;
        let o = seq![(tail[0], inner)];
        lemma_shaped_object(o, p);
        assert(entry_shaped(o[0], p));
    }
}

/// Hanging a block under a shaped object along plain keys succeeds and keeps the shape.
proof fn lemma_attach_ok(parent: Seq<(Seq<char>, TreeModel)>, is_root: bool, rem: Seq<Seq<char>>, b: SpecBlock, order: int, tag: Option<Seq<char>>, p: Seq<char>)
    requires
        rem.len() > 0,
        plain_keys(rem, p),
        obj_sorted(parent),
        shaped(TreeModel::Object(parent), p),
    ensures
        attach(parent, is_root, rem, b, order, tag, p) is Ok,
        shaped(TreeModel::Object(attach(parent, is_root, rem, b, order, tag, p)->Ok_0), p),
    decreases rem.len(),
{
    let key = rem[0];
    lemma_plain_keys_tail(rem, p);
    let empty = Seq::<(Seq<char>, TreeModel)>::empty();
    assert(!has_meta(empty, p));
    assert(shaped(TreeModel::Object(empty), p));
    lemma_apply_meta_ok(empty, b, order, tag, p);
    let lf = leaf(b, order, tag, p)->Ok_0;
    lemma_shaped_object(parent, p);
    if rem.len() == 1 {
        match obj_get(parent, key) {
            Some(TreeModel::Object(o)) => {
                let i = lemma_get_index(parent, key);
                assert(entry_shaped(parent[i], p));
                if has_meta(o, p) {
                    let v = TreeModel::Array(seq![TreeModel::Object(o), TreeModel::Object(lf)]);
                    lemma_promote(parent, key, v);
                    lemma_obj_set_at(parent, key, v, i);
                    assert(shaped(v, p)) by {
                        let items = seq![TreeModel::Object(o), TreeModel::Object(lf)];
                        assert forall|j: int| 0 <= j < items.len() implies shaped(#[trigger] items[j], p) by {
                            if j == 0 {
                                assert(items[j] == TreeModel::Object(o));
                            } else {
                                assert(items[j] == TreeModel::Object(lf));
                            }
                        }
                    }
                    lemma_update_shaped(parent, i, v, p);
                } else {
                    lemma_apply_meta_ok(o, b, order, tag, p);
                    let v = TreeModel::Object(apply_meta(o, b, order, tag, p)->Ok_0);
                    lemma_obj_set_at(parent, key, v, i);
                    lemma_update_shaped(parent, i, v, p);
                }
            },
            Some(TreeModel::Array(items)) => {
                let i = lemma_get_index(parent, key);
                assert(entry_shaped(parent[i], p));
                let v = TreeModel::Array(items.push(TreeModel::Object(lf)));
                assert(shaped(v, p)) by {
                    let it2 = items.push(TreeModel::Object(lf));
                    assert forall|j: int| 0 <= j < it2.len() implies shaped(#[trigger] it2[j], p) by {
                        if j < items.len() {
                            assert(it2[j] == items[j]);
                        }
                    }
                }
                lemma_obj_set_at(parent, key, v, i);
                lemma_update_shaped(parent, i, v, p);
            },
            None => {
                lemma_insert_shaped(parent, key, TreeModel::Object(lf), p);
            },
            Some(w) => {
                let i = lemma_get_index(parent, key);
                assert(entry_shaped(parent[i], p));
            },
        }
    } else {
        let rest = rem.drop_first();
        lemma_chain_ok(rest, lf, p);
        let branch = chain(rest, lf, p)->Ok_0;
        match obj_get(parent, key) {
            Some(TreeModel::Object(o)) => {
                let i = lemma_get_index(parent, key);
                assert(entry_shaped(parent[i], p));
                assert(tree_sorted(parent[i].1));
                lemma_attach_ok(o, false, rest, b, order, tag, p);
                let v = TreeModel::Object(attach(o, false, rest, b, order, tag, p)->Ok_0);
                lemma_obj_set_at(parent, key, v, i);
                lemma_update_shaped(parent, i, v, p);
            },
            Some(TreeModel::Array(items)) => {
                let i = lemma_get_index(parent, key);
                assert(entry_shaped(parent[i], p));
                let v = TreeModel::Array(items.push(branch));
                assert(shaped(v, p)) by {
                    let it2 = items.push(branch);
                    assert forall|j: int| 0 <= j < it2.len() implies shaped(#[trigger] it2[j], p) by {
                        if j < items.len() {
                            assert(it2[j] == items[j]);
                        }
                    }
                }
                lemma_obj_set_at(parent, key, v, i);
                lemma_update_shaped(parent, i, v, p);
            },
            None => {
                lemma_insert_shaped(parent, key, branch, p);
            },
            Some(w) => {
                let i = lemma_get_index(parent, key);
                assert(entry_shaped(parent[i], p));
            },
        }
    }
}

proof fn lemma_obj_at_shaped(v: TreeModel, path: Seq<Step>, p: Seq<char>)
    requires
        shaped(v, p),
        valid_path(v, path),
        plain_keys(keys_along(v, path), p),
    ensures
        shaped(TreeModel::Object(obj_at(v, path)), p),
    decreases path.len(),
{
    if path.len() > 0 {
        match (v, path[0]) {
            (TreeModel::Object(o), Step::Entry(i)) => {
                lemma_shaped_object(o, p);
                assert(entry_shaped(o[i], p));
                let ks = keys_along(v, path);
                lemma_plain_keys_tail(ks, p);
                assert(ks.drop_first() =~= keys_along(o[i].1, path.drop_first()));
                lemma_obj_at_shaped(o[i].1, path.drop_first(), p);
            },
            (TreeModel::Array(items), Step::Item(j)) => {
                assert(shaped(items[j], p));
                lemma_obj_at_shaped(items[j], path.drop_first(), p);
            },
            _ => {},
        }
    }
}

proof fn lemma_set_at_shaped(v: TreeModel, path: Seq<Step>, x: Seq<(Seq<char>, TreeModel)>, p: Seq<char>)
    requires
        shaped(v, p),
        valid_path(v, path),
        plain_keys(keys_along(v, path), p),
        shaped(TreeModel::Object(x), p),
    ensures
        shaped(set_at(v, path, x), p),
        set_at(v, path, x) is Object || set_at(v, path, x) is Array,
    decreases path.len(),
{
    if path.len() > 0 {
        let rest = path.drop_first();
        match (v, path[0]) {
            (TreeModel::Object(o), Step::Entry(i)) => {
                lemma_shaped_object(o, p);
                assert(entry_shaped(o[i], p));
                let ks = keys_along(v, path);
                lemma_plain_keys_tail(ks, p);
                assert(ks.drop_first() =~= keys_along(o[i].1, rest));
                lemma_set_at_shaped(o[i].1, rest, x, p);
                lemma_update_shaped(o, i, set_at(o[i].1, rest, x), p);
            },
            (TreeModel::Array(items), Step::Item(j)) => {
                assert(shaped(items[j], p));
                lemma_set_at_shaped(items[j], rest, x, p);
                let i2 = items.update(j, set_at(items[j], rest, x));
                assert forall|a: int| 0 <= a < i2.len() implies shaped(#[trigger] i2[a], p) by {
                    if a != j {
                        assert(i2[a] == items[a]);
                    }
                }
            },
            _ => {},
        }
    }
}

/// Placing a block with plain name segments in a shaped tree succeeds and keeps the shape.
proof fn lemma_insert_block_ok(t: TreeModel, b: SpecBlock, order: int, p: Seq<char>)
    requires
        t is Object,
        tree_sorted(t),
        shaped(t, p),
        plain_keys(name_segments(b.name), p),
    ensures
        insert_block(t, b, order, p) is Ok,
        shaped(insert_block(t, b, order, p)->Ok_0, p),
{
    let o = t->Object_0;
    let main = split_name(b.name).0;
    let tag = split_name(b.name).1;
    let segs = split_on(main, '.');
    let d = deepest(t, segs);
    let n = segs.len() as int;
    lemma_split_on_nonempty(main, '.');
    lemma_deepest_bounds(t, segs);
    if d == n {
        lemma_locate_ok(o, segs, n);
        assert(segs.take(n) =~= segs);
    }
    lemma_locate_valid(t, segs);
    lemma_locate_keys(t, segs);
    if d == n && locate(t, segs) is Ok && !has_meta(obj_at(t, locate(t, segs)->Ok_0), p) {
        let path = locate(t, segs)->Ok_0;
        let x = obj_at(t, path);
        lemma_obj_at_shaped(t, path, p);
        lemma_apply_meta_ok(x, b, order, tag, p);
        lemma_set_at_shaped(t, path, apply_meta(x, b, order, tag, p)->Ok_0, p);
    } else {
        let pl = if d == n {
            n - 1
        } else {
            d
        };
        let pre = segs.take(pl);
        let rem = segs.skip(pl);
        lemma_locate_ok(o, segs, pl);
        lemma_locate_valid(t, pre);
        lemma_locate_keys(t, pre);
        let path = locate(t, pre)->Ok_0;
        let x = obj_at(t, path);
        assert forall|i: int| 0 <= i < rem.len() implies !is_reserved(#[trigger] rem[i], p) by {
            assert(rem[i] == segs[pl + i]);
        }
        assert forall|i: int| 0 <= i < pre.len() implies !is_reserved(#[trigger] pre[i], p) by {
            assert(pre[i] == segs[i]);
        }
        lemma_obj_at_sorted(t, path);
        lemma_obj_at_shaped(t, path, p);
        lemma_attach_ok(x, pl == 0, rem, b, order, tag, p);
        lemma_set_at_shaped(t, path, attach(x, pl == 0, rem, b, order, tag, p)->Ok_0, p);
    }
}

/// Building a tree from blocks with plain name segments succeeds.
proof fn lemma_build_ok(bs: Seq<SpecBlock>, p: Seq<char>)
    requires
        forall|k: int| 0 <= k < bs.len() ==> plain_keys(name_segments(#[trigger] bs[k].name), p),
    ensures
        build_tree(bs, p) is Ok,
        build_tree(bs, p)->Ok_0 is Object,
        shaped(build_tree(bs, p)->Ok_0, p),
    decreases bs.len(),
{
    if bs.len() == 0 {
        assert(shaped(TreeModel::Object(Seq::empty()), p));
    } else {
        let prev = bs.drop_last();
        assert forall|k: int| 0 <= k < prev.len() implies plain_keys(name_segments(#[trigger] prev[k].name), p) by {
            assert(prev[k] == bs[k]);
        }
        lemma_build_ok(prev, p);
        law_built_tree_sorted(prev, p);
        let n = bs.len() - 1;
        assert(plain_keys(name_segments(bs[n].name), p));
        lemma_insert_block_ok(build_tree(prev, p)->Ok_0, bs.last(), n, p);
    }
}

proof fn lemma_split_on_chars(s: Seq<char>, sep: char)
    requires
        forall|i: int| 0 <= i < s.len() ==> (#[trigger] s[i] == sep || is_name_continue(s[i])),
    ensures
        forall|k: int, j: int| 0 <= k < split_on(s, sep).len() && 0 <= j < split_on(s, sep)[k].len() ==> is_name_continue(#[trigger] split_on(s, sep)[k][j]),
    decreases s.len(),
{
    let q = first_index(s, sep);
    lemma_first_index_range(s, sep);
    let ps = split_on(s, sep);
    if 0 <= q < s.len() {
        let r = s.skip(q + 1);
        assert forall|i: int| 0 <= i < r.len() implies (#[trigger] r[i] == sep || is_name_continue(r[i])) by {
            assert(r[i] == s[q + 1 + i]);
        }
        lemma_split_on_chars(r, sep);
        assert(ps =~= seq![s.take(q)] + split_on(r, sep));
        assert forall|k: int, j: int| 0 <= k < ps.len() && 0 <= j < ps[k].len() implies is_name_continue(#[trigger] ps[k][j]) by {
            if k == 0 {
                assert(ps[0][j] == s[j]);
                assert(s[j] != sep);
            } else {
                assert(ps[k] == split_on(r, sep)[k - 1]);
            }
        }
    } else {
        assert(ps =~= seq![s]);
        assert forall|k: int, j: int| 0 <= k < ps.len() && 0 <= j < ps[k].len() implies is_name_continue(#[trigger] ps[k][j]) by {
            assert(ps[k] == s);
            assert(s[j] != sep);
        }
    }
}

/// The meta prefix that the tree options have by default.
pub open spec fn default_prefix() -> Seq<char> {
    seq!['$']
}

/// With the default prefix no segment of a valid name is a meta key: meta keys
/// start with `$`, which no name holds.
proof fn lemma_default_prefix_plain(name: Seq<char>)
    requires
        valid_name(name),
    ensures
        plain_keys(name_segments(name), default_prefix()),
{
    let q = first_index(name, '#');
    lemma_first_index_range(name, '#');
    let main = split_name(name).0;
    assert(valid_main(main));
    lemma_split_on_chars(main, '.');
    let segs = name_segments(name);
    let p = default_prefix();
    assert forall|i: int| 0 <= i < segs.len() implies !is_reserved(#[trigger] segs[i], p) by {
        let sg = segs[i];
        if sg.len() > 0 {
            assert(is_name_continue(sg[0]));
            lemma_combining_mark_above_ascii(sg[0]);
            assert(meta_key(p, type_field())[0] == '$');
            assert(meta_key(p, content_field())[0] == '$');
            assert(meta_key(p, tag_field())[0] == '$');
            assert(meta_key(p, order_field())[0] == '$');
        } else {
            assert(meta_key(p, type_field()).len() > 0);
            assert(meta_key(p, content_field()).len() > 0);
            assert(meta_key(p, tag_field()).len() > 0);
            assert(meta_key(p, order_field()).len() > 0);
        }
    }
}

/// With the default options every sequence of well-formed blocks is placed
/// in a path tree and read back from it unchanged (each block without a
/// closing line).
pub proof fn law_default_tree_round_trip(bs: Seq<SpecBlock>)
    requires
        forall|k: int| 0 <= k < bs.len() ==> well_formed_block(#[trigger] bs[k]),
    ensures
        build_tree(bs, default_prefix()) is Ok,
        tree_blocks(build_tree(bs, default_prefix())->Ok_0, default_prefix()) == Ok::<Seq<SpecBlock>, SpecErrorKind>(bs.map_values(|b: SpecBlock| read_back(b))),
{
    assert forall|k: int| 0 <= k < bs.len() implies plain_keys(name_segments(#[trigger] bs[k].name), default_prefix()) by {
        assert(well_formed_block(bs[k]));
        lemma_default_prefix_plain(bs[k].name);
    }
    law_tree_round_trip(bs, default_prefix());
}

/// With the default options, the path tree of a PML document whose blocks all
/// have a type reads back as the document's blocks (each without a closing
/// line), and is written out as those blocks' text.
pub proof fn law_document_tree_round_trip(s: Seq<char>)
    requires
        parse_document(s) is Ok,
        forall|k: int| 0 <= k < parse_document(s)->Ok_0.len() ==> (#[trigger] parse_document(s)->Ok_0[k]).ty.len() > 0,
    ensures
        document_tree(s, default_prefix()) is Ok,
        tree_blocks(document_tree(s, default_prefix())->Ok_0, default_prefix()) == Ok::<Seq<SpecBlock>, SpecErrorKind>(
            parse_document(s)->Ok_0.map_values(|b: SpecBlock| read_back(b)),
        ),
        tree_text(document_tree(s, default_prefix())->Ok_0, default_prefix()) == Ok::<Seq<char>, SpecError>(
            render(parse_document(s)->Ok_0.map_values(|b: SpecBlock| read_back(b))),
        ),
{
    law_parsed_blocks_well_formed(s);
    let bs = parse_document(s)->Ok_0;
    assert forall|k: int| 0 <= k < bs.len() implies well_formed_block(#[trigger] bs[k]) by {
        assert(parsed_block_ok(bs[k]));
        assert(bs[k].ty.len() > 0);
    }
    law_default_tree_round_trip(bs);
}

/// Name segments are object keys exactly as written, digits or not: a single
/// block named `S0.S1. ... .Sn` becomes the path of objects `S0` → `S1` → ...
/// → `Sn`, whose last object holds the block's meta fields.
pub proof fn law_segments_are_keys(b: SpecBlock, p: Seq<char>)
    requires
        plain_keys(name_segments(b.name), p),
    ensures
        ({
            let segs = name_segments(b.name);
            let lf = leaf(b, 0, split_name(b.name).1, p);
            &&& lf is Ok
            &&& chain(segs.drop_first(), lf->Ok_0, p) is Ok
            &&& build_tree(seq![b], p) == Ok::<TreeModel, SpecErrorKind>(
                TreeModel::Object(seq![(segs[0], chain(segs.drop_first(), lf->Ok_0, p)->Ok_0)]),
            )
        }),
{
    let segs = name_segments(b.name);
    let tag = split_name(b.name).1;
    lemma_split_on_nonempty(split_name(b.name).0, '.');
    let empty = Seq::<(Seq<char>, TreeModel)>::empty();
    let root = TreeModel::Object(empty);
    assert(!has_meta(empty, p));
    assert(shaped(TreeModel::Object(empty), p));
    lemma_apply_meta_ok(empty, b, 0, tag, p);
    let lf = leaf(b, 0, tag, p)->Ok_0;
    lemma_plain_keys_tail(segs, p);
    lemma_chain_ok(segs.drop_first(), lf, p);
    let branch = chain(segs.drop_first(), lf, p)->Ok_0;
    assert(seq![b].drop_last() =~= Seq::<SpecBlock>::empty());
    assert(build_tree(seq![b].drop_last(), p) == Ok::<TreeModel, SpecErrorKind>(root));
    assert(seq![empty].drop_first() =~= Seq::<Seq<(Seq<char>, TreeModel)>>::empty());
    assert(obj_get(empty, segs[0]) is None);
    assert(child_objects(obj_get(empty, segs[0])) =~= Seq::<Seq<(Seq<char>, TreeModel)>>::empty());
    assert(children(Seq::<Seq<(Seq<char>, TreeModel)>>::empty(), segs[0]) =~= Seq::<Seq<(Seq<char>, TreeModel)>>::empty());
    assert(children(seq![empty], segs[0]) == child_objects(obj_get(empty, segs[0])) + children(seq![empty].drop_first(), segs[0]));
    assert(children(seq![empty], segs[0]) =~= Seq::<Seq<(Seq<char>, TreeModel)>>::empty());
    assert(deepest(root, segs) == 0);
    assert(segs.take(0) =~= Seq::<Seq<char>>::empty());
    assert(segs.skip(0) =~= segs);
    assert(locate(root, segs.take(0)) == Ok::<Seq<Step>, SpecErrorKind>(Seq::empty()));
    if segs.len() == 1 {
        assert(segs.drop_first() =~= Seq::<Seq<char>>::empty());
        assert(branch == TreeModel::Object(lf));
    }
    assert(obj_insert(empty, segs[0], branch) == seq![(segs[0], branch)]);
    assert(attach(empty, true, segs, b, 0, tag, p) == Ok::<Seq<(Seq<char>, TreeModel)>, SpecErrorKind>(seq![(segs[0], branch)]));
}

} // verus!
