use vstd::prelude::*;
use crate::model::{SpecBlock, SpecErrorKind};
use crate::tree_build::{attach, chain, leaf};
use crate::tree_insert::{build_tree, insert_block, obj_at, set_at, valid_path, Step};
use crate::tree_meta::{and_then_meta, apply_meta, insert_meta};
use crate::tree_model::{
    key_lt, lemma_key_lt_irreflexive, lemma_key_lt_total, lemma_key_lt_transitive, obj_get,
    obj_insert, obj_remove, obj_set, sorted_keys, TreeModel,
};

verus! {

/// Every object in the tree has strictly increasing keys.
pub open spec fn tree_sorted(v: TreeModel) -> bool
    decreases v,
{
    match v {
        TreeModel::Object(o) => sorted_keys(o) && forall|i: int| 0 <= i < o.len() ==> tree_sorted(#[trigger] o[i].1),
        TreeModel::Array(items) => forall|j: int| 0 <= j < items.len() ==> tree_sorted(#[trigger] items[j]),
        _ => true,
    }
}

/// An object whose keys increase and whose values are sorted trees.
pub open spec fn obj_sorted(o: Seq<(Seq<char>, TreeModel)>) -> bool {
    tree_sorted(TreeModel::Object(o))
}

proof fn lemma_obj_get_sorted(o: Seq<(Seq<char>, TreeModel)>, k: Seq<char>)
    requires
        obj_sorted(o),
    ensures
        obj_get(o, k) matches Some(v) ==> tree_sorted(v),
    decreases o.len(),
{
    if o.len() > 0 && o[0].0 != k {
        let r = o.drop_first();
        assert forall|i: int, j: int| 0 <= i < j < r.len() implies key_lt(#[trigger] r[i].0, #[trigger] r[j].0) by {
            assert(r[i] == o[i + 1] && r[j] == o[j + 1]);
        }
        assert forall|i: int| 0 <= i < r.len() implies tree_sorted(#[trigger] r[i].1) by {
            assert(r[i] == o[i + 1]);
        }
        lemma_obj_get_sorted(r, k);
    } else if o.len() > 0 {
        assert(tree_sorted(o[0].1));
    }
}

pub proof fn lemma_rest_sorted(o: Seq<(Seq<char>, TreeModel)>)
    requires
        obj_sorted(o),
        o.len() > 0,
    ensures
        obj_sorted(o.drop_first()),
        forall|j: int| 0 <= j < o.drop_first().len() ==> key_lt(o[0].0, #[trigger] o.drop_first()[j].0),
{
    let r = o.drop_first();
    assert forall|i: int, j: int| 0 <= i < j < r.len() implies key_lt(#[trigger] r[i].0, #[trigger] r[j].0) by {
        assert(r[i] == o[i + 1] && r[j] == o[j + 1]);
    }
    assert forall|i: int| 0 <= i < r.len() implies tree_sorted(#[trigger] r[i].1) by {
        assert(r[i] == o[i + 1]);
    }
    assert forall|j: int| 0 <= j < r.len() implies key_lt(o[0].0, #[trigger] r[j].0) by {
        assert(r[j] == o[j + 1]);
    }
}

proof fn lemma_cons_sorted(e: (Seq<char>, TreeModel), r: Seq<(Seq<char>, TreeModel)>)
    requires
        obj_sorted(r),
        tree_sorted(e.1),
        forall|j: int| 0 <= j < r.len() ==> key_lt(e.0, #[trigger] r[j].0),
    ensures
        obj_sorted(seq![e] + r),
{
    let o = seq![e] + r;
    assert forall|i: int, j: int| 0 <= i < j < o.len() implies key_lt(#[trigger] o[i].0, #[trigger] o[j].0) by {
        if i == 0 {
            assert(o[j] == r[j - 1]);
        } else {
            assert(o[i] == r[i - 1] && o[j] == r[j - 1]);
        }
    }
    assert forall|i: int| 0 <= i < o.len() implies tree_sorted(#[trigger] o[i].1) by {
        if i > 0 {
            assert(o[i] == r[i - 1]);
        }
    }
}

/// Inserting into a sorted object keeps it sorted, and keeps every lower bound
/// of the keys that is also below the new key.
proof fn lemma_obj_insert_sorted(o: Seq<(Seq<char>, TreeModel)>, k: Seq<char>, v: TreeModel, lb: Option<Seq<char>>)
    requires
        obj_sorted(o),
        tree_sorted(v),
        lb matches Some(b) ==> key_lt(b, k) && forall|j: int| 0 <= j < o.len() ==> key_lt(b, #[trigger] o[j].0),
    ensures
        obj_sorted(obj_insert(o, k, v)),
        lb matches Some(b) ==> forall|j: int| 0 <= j < obj_insert(o, k, v).len() ==> key_lt(b, #[trigger] obj_insert(o, k, v)[j].0),
    decreases o.len(),
{
    let r = obj_insert(o, k, v);
    if o.len() == 0 {
        lemma_cons_sorted((k, v), Seq::empty());
        assert(r =~= seq![(k, v)] + Seq::<(Seq<char>, TreeModel)>::empty());
    } else {
        lemma_rest_sorted(o);
        let rest = o.drop_first();
        if o[0].0 == k {
            lemma_cons_sorted((k, v), rest);
        } else if key_lt(k, o[0].0) {
            assert forall|j: int| 0 <= j < o.len() implies key_lt(k, #[trigger] o[j].0) by {
                if j > 0 {
                    assert(o[j] == rest[j - 1]);
                    lemma_key_lt_transitive(k, o[0].0, o[j].0);
                }
            }
            lemma_cons_sorted((k, v), o);
        } else {
            lemma_key_lt_total(o[0].0, k);
            lemma_obj_insert_sorted(rest, k, v, Some(o[0].0));
            let ri = obj_insert(rest, k, v);
            assert(tree_sorted(o[0].1));
            lemma_cons_sorted(o[0], ri);
            assert(r =~= seq![o[0]] + ri);
        }
        if let Some(b) = lb {
            assert forall|j: int| 0 <= j < r.len() implies key_lt(b, #[trigger] r[j].0) by {
                if o[0].0 == k {
                    if j > 0 {
                        assert(r[j] == rest[j - 1]);
                        assert(rest[j - 1] == o[j]);
                    }
                } else if key_lt(k, o[0].0) {
                    if j > 0 {
                        assert(r[j] == o[j - 1]);
                    }
                } else {
                    let ri = obj_insert(rest, k, v);
                    assert(r =~= seq![o[0]] + ri);
                    if j > 0 {
                        assert(r[j] == ri[j - 1]);
                        lemma_obj_insert_sorted(rest, k, v, Some(o[0].0));
                        assert(key_lt(o[0].0, ri[j - 1].0));
                        lemma_key_lt_transitive(b, o[0].0, ri[j - 1].0);
                    }
                }
            }
        }
    }
}

/// Setting a value in place keeps the keys; each value is the old one or the new one.
proof fn lemma_obj_set_shape(o: Seq<(Seq<char>, TreeModel)>, k: Seq<char>, v: TreeModel)
    ensures
        obj_set(o, k, v).len() == o.len(),
        forall|i: int| 0 <= i < o.len() ==> (#[trigger] obj_set(o, k, v)[i]).0 == o[i].0,
        forall|i: int| 0 <= i < o.len() ==> (#[trigger] obj_set(o, k, v)[i]).1 == o[i].1 || obj_set(o, k, v)[i].1 == v,
    decreases o.len(),
{
    if o.len() > 0 && o[0].0 != k {
        lemma_obj_set_shape(o.drop_first(), k, v);
        let r = obj_set(o, k, v);
        assert forall|i: int| 0 < i < o.len() implies (#[trigger] r[i]).0 == o[i].0 && (r[i].1 == o[i].1 || r[i].1 == v) by {
            assert(r[i] == obj_set(o.drop_first(), k, v)[i - 1]);
            assert(o.drop_first()[i - 1] == o[i]);
        }
    } else if o.len() > 0 {
        let r = obj_set(o, k, v);
        assert forall|i: int| 0 < i < o.len() implies (#[trigger] r[i]) == o[i] by {
            assert(r[i] == o.drop_first()[i - 1]);
        }
    }
}

proof fn lemma_obj_set_sorted(o: Seq<(Seq<char>, TreeModel)>, k: Seq<char>, v: TreeModel)
    requires
        obj_sorted(o),
        tree_sorted(v),
    ensures
        obj_sorted(obj_set(o, k, v)),
{
    lemma_obj_set_shape(o, k, v);
    let r = obj_set(o, k, v);
    assert forall|i: int, j: int| 0 <= i < j < r.len() implies key_lt(#[trigger] r[i].0, #[trigger] r[j].0) by {
        assert(r[i].0 == o[i].0 && r[j].0 == o[j].0);
    }
    assert forall|i: int| 0 <= i < r.len() implies tree_sorted(#[trigger] r[i].1) by {
        assert(r[i].1 == o[i].1 || r[i].1 == v);
    }
}

proof fn lemma_obj_remove_sorted(o: Seq<(Seq<char>, TreeModel)>, k: Seq<char>, lb: Option<Seq<char>>)
    requires
        obj_sorted(o),
        lb matches Some(b) ==> forall|j: int| 0 <= j < o.len() ==> key_lt(b, #[trigger] o[j].0),
    ensures
        obj_sorted(obj_remove(o, k)),
        lb matches Some(b) ==> forall|j: int| 0 <= j < obj_remove(o, k).len() ==> key_lt(b, #[trigger] obj_remove(o, k)[j].0),
    decreases o.len(),
{
    if o.len() > 0 {
        lemma_rest_sorted(o);
        let rest = o.drop_first();
        if o[0].0 != k {
            lemma_obj_remove_sorted(rest, k, Some(o[0].0));
            let rr = obj_remove(rest, k);
            assert(tree_sorted(o[0].1));
            lemma_cons_sorted(o[0], rr);
            if let Some(b) = lb {
                lemma_obj_remove_sorted(rest, k, Some(o[0].0));
                let r = obj_remove(o, k);
                assert forall|j: int| 0 <= j < r.len() implies key_lt(b, #[trigger] r[j].0) by {
                    if j > 0 {
                        assert(r[j] == rr[j - 1]);
                        lemma_key_lt_transitive(b, o[0].0, rr[j - 1].0);
                    }
                }
            }
        } else {
            if let Some(b) = lb {
                let r = obj_remove(o, k);
                assert forall|j: int| 0 <= j < r.len() implies key_lt(b, #[trigger] r[j].0) by {
                    assert(r[j] == o[j + 1]);
                }
            }
        }
    }
}

proof fn lemma_insert_meta_sorted(o: Seq<(Seq<char>, TreeModel)>, key: Seq<char>, v: TreeModel, p: Seq<char>)
    requires
        obj_sorted(o),
        tree_sorted(v),
    ensures
        insert_meta(o, key, v, p) matches Ok(o2) ==> obj_sorted(o2),
{
    lemma_obj_insert_sorted(o, key, v, None);
}

proof fn lemma_and_then_meta_sorted(r: Result<Seq<(Seq<char>, TreeModel)>, SpecErrorKind>, key: Seq<char>, v: TreeModel, p: Seq<char>)
    requires
        r matches Ok(o) ==> obj_sorted(o),
        tree_sorted(v),
    ensures
        and_then_meta(r, key, v, p) matches Ok(o2) ==> obj_sorted(o2),
{
    if let Ok(o) = r {
        lemma_insert_meta_sorted(o, key, v, p);
    }
}

proof fn lemma_apply_meta_sorted(o: Seq<(Seq<char>, TreeModel)>, b: SpecBlock, order: int, tag: Option<Seq<char>>, p: Seq<char>)
    requires
        obj_sorted(o),
    ensures
        apply_meta(o, b, order, tag, p) matches Ok(o2) ==> obj_sorted(o2),
{
    let r1 = insert_meta(o, crate::tree_meta::meta_key(p, crate::tree_meta::type_field()), TreeModel::String(b.ty), p);
    lemma_insert_meta_sorted(o, crate::tree_meta::meta_key(p, crate::tree_meta::type_field()), TreeModel::String(b.ty), p);
    let r2 = and_then_meta(r1, crate::tree_meta::meta_key(p, crate::tree_meta::content_field()), TreeModel::String(b.content), p);
    lemma_and_then_meta_sorted(r1, crate::tree_meta::meta_key(p, crate::tree_meta::content_field()), TreeModel::String(b.content), p);
    let r3 = and_then_meta(r2, crate::tree_meta::meta_key(p, crate::tree_meta::order_field()), TreeModel::Integer(order), p);
    lemma_and_then_meta_sorted(r2, crate::tree_meta::meta_key(p, crate::tree_meta::order_field()), TreeModel::Integer(order), p);
    if let Some(t) = tag {
        lemma_and_then_meta_sorted(r3, crate::tree_meta::meta_key(p, crate::tree_meta::tag_field()), TreeModel::String(t), p);
    }
}

proof fn lemma_chain_sorted(tail: Seq<Seq<char>>, lf: Seq<(Seq<char>, TreeModel)>, p: Seq<char>)
    requires
        obj_sorted(lf),
    ensures
        chain(tail, lf, p) matches Ok(t) ==> tree_sorted(t),
    decreases tail.len(),
{
    if tail.len() > 0 {
        lemma_chain_sorted(tail.drop_first(), lf, p);
        if let Ok(inner) = chain(tail.drop_first(), lf, p) {
            lemma_cons_sorted((tail[0], inner), Seq::empty());
            assert(seq![(tail[0], inner)] =~= seq![(tail[0], inner)] + Seq::<(Seq<char>, TreeModel)>::empty());
        }
    }
}

proof fn lemma_push_sorted(items: Seq<TreeModel>, x: TreeModel)
    requires
        tree_sorted(TreeModel::Array(items)),
        tree_sorted(x),
    ensures
        tree_sorted(TreeModel::Array(items.push(x))),
{
    let r = items.push(x);
    let a = TreeModel::Array(items);
    assert(a->Array_0 == items);
    assert(tree_sorted(a));
    assert forall|j: int| 0 <= j < items.len() implies tree_sorted(#[trigger] items[j]) by {
        assert(tree_sorted(a));
        assert(a matches TreeModel::Array(its) && its[j] == items[j]);
    }
    assert forall|j: int| 0 <= j < r.len() implies tree_sorted(#[trigger] r[j]) by {
        if j < items.len() {
            assert(r[j] == items[j]);
            assert(tree_sorted(items[j]));
        } else {
            assert(r[j] == x);
        }
    }
}

proof fn lemma_attach_sorted(parent: Seq<(Seq<char>, TreeModel)>, is_root: bool, rem: Seq<Seq<char>>, b: SpecBlock, order: int, tag: Option<Seq<char>>, p: Seq<char>)
    requires
        obj_sorted(parent),
    ensures
        attach(parent, is_root, rem, b, order, tag, p) matches Ok(o2) ==> obj_sorted(o2),
    decreases rem.len(),
{
    if rem.len() > 0 {
        let key = rem[0];
        lemma_apply_meta_sorted(Seq::empty(), b, order, tag, p);
        lemma_obj_get_sorted(parent, key);
        if let Ok(lf) = leaf(b, order, tag, p) {
            if rem.len() == 1 {
                match obj_get(parent, key) {
                    Some(TreeModel::Object(o)) => {
                        lemma_obj_remove_sorted(parent, key, None);
                        let arr = seq![TreeModel::Object(o), TreeModel::Object(lf)];
                        assert(tree_sorted(TreeModel::Array(arr))) by {
                            assert forall|j: int| 0 <= j < arr.len() implies tree_sorted(#[trigger] arr[j]) by {}
                        }
                        lemma_obj_insert_sorted(obj_remove(parent, key), key, TreeModel::Array(arr), None);
                        lemma_apply_meta_sorted(o, b, order, tag, p);
                        if let Ok(o2) = apply_meta(o, b, order, tag, p) {
                            lemma_obj_set_sorted(parent, key, TreeModel::Object(o2));
                        }
                    },
                    Some(TreeModel::Array(items)) => {
                        lemma_push_sorted(items, TreeModel::Object(lf));
                        lemma_obj_set_sorted(parent, key, TreeModel::Array(items.push(TreeModel::Object(lf))));
                    },
                    Some(_) => {},
                    None => {
                        lemma_obj_insert_sorted(parent, key, TreeModel::Object(lf), None);
                    },
                }
            } else {
                lemma_chain_sorted(rem.drop_first(), lf, p);
                if let Ok(branch) = chain(rem.drop_first(), lf, p) {
                    match obj_get(parent, key) {
                        Some(TreeModel::Object(o)) => {
                            lemma_attach_sorted(o, false, rem.drop_first(), b, order, tag, p);
                            if let Ok(o2) = attach(o, false, rem.drop_first(), b, order, tag, p) {
                                lemma_obj_set_sorted(parent, key, TreeModel::Object(o2));
                            }
                        },
                        Some(TreeModel::Array(items)) => {
                            lemma_push_sorted(items, branch);
                            lemma_obj_set_sorted(parent, key, TreeModel::Array(items.push(branch)));
                        },
                        Some(_) => {},
                        None => {
                            lemma_obj_insert_sorted(parent, key, branch, None);
                        },
                    }
                }
            }
        }
    }
}

pub proof fn lemma_obj_at_sorted(v: TreeModel, path: Seq<Step>)
    requires
        tree_sorted(v),
        valid_path(v, path),
    ensures
        obj_sorted(obj_at(v, path)),
    decreases path.len(),
{
    if path.len() > 0 {
        match (v, path[0]) {
            (TreeModel::Object(o), Step::Entry(i)) => {
                assert(tree_sorted(o[i].1));
                lemma_obj_at_sorted(o[i].1, path.drop_first());
            },
            (TreeModel::Array(items), Step::Item(j)) => {
                assert(tree_sorted(items[j]));
                lemma_obj_at_sorted(items[j], path.drop_first());
            },
            _ => {},
        }
    }
}

proof fn lemma_set_at_sorted(v: TreeModel, path: Seq<Step>, x: Seq<(Seq<char>, TreeModel)>)
    requires
        tree_sorted(v),
        valid_path(v, path),
        obj_sorted(x),
    ensures
        tree_sorted(set_at(v, path, x)),
    decreases path.len(),
{
    if path.len() > 0 {
        match (v, path[0]) {
            (TreeModel::Object(o), Step::Entry(i)) => {
                assert(tree_sorted(o[i].1));
                lemma_set_at_sorted(o[i].1, path.drop_first(), x);
                let o2 = o.update(i, (o[i].0, set_at(o[i].1, path.drop_first(), x)));
                assert forall|a: int, c: int| 0 <= a < c < o2.len() implies key_lt(#[trigger] o2[a].0, #[trigger] o2[c].0) by {
                    assert(o2[a].0 == o[a].0 && o2[c].0 == o[c].0);
                }
                assert forall|a: int| 0 <= a < o2.len() implies tree_sorted(#[trigger] o2[a].1) by {
                    if a != i {
                        assert(o2[a] == o[a]);
                    }
                }
            },
            (TreeModel::Array(items), Step::Item(j)) => {
                assert(tree_sorted(items[j]));
                lemma_set_at_sorted(items[j], path.drop_first(), x);
                let i2 = items.update(j, set_at(items[j], path.drop_first(), x));
                assert forall|a: int| 0 <= a < i2.len() implies tree_sorted(#[trigger] i2[a]) by {
                    if a != j {
                        assert(i2[a] == items[a]);
                    }
                }
            },
            _ => {},
        }
    }
}

proof fn lemma_insert_block_sorted(root: TreeModel, b: SpecBlock, order: int, p: Seq<char>)
    requires
        tree_sorted(root),
    ensures
        insert_block(root, b, order, p) matches Ok(t) ==> tree_sorted(t),
{
    let (main, tag) = crate::tree_insert::split_name(b.name);
    let segs = crate::text::split_on(main, '.');
    let d = crate::tree_insert::deepest(root, segs);
    let n = segs.len() as int;
    crate::tree_insert::lemma_locate_valid(root, segs);
    if let Ok(path) = crate::tree_insert::locate(root, segs) {
        lemma_obj_at_sorted(root, path);
        let o = obj_at(root, path);
        lemma_apply_meta_sorted(o, b, order, tag, p);
        if let Ok(o2) = apply_meta(o, b, order, tag, p) {
            lemma_set_at_sorted(root, path, o2);
        }
    }
    let pl = if d == n {
        if n == 0 {
            0
        } else {
            n - 1
        }
    } else {
        d
    };
    crate::tree_insert::lemma_locate_valid(root, segs.take(pl));
    if let Ok(path) = crate::tree_insert::locate(root, segs.take(pl)) {
        lemma_obj_at_sorted(root, path);
        let o = obj_at(root, path);
        lemma_attach_sorted(o, pl == 0, segs.skip(pl), b, order, tag, p);
        if let Ok(o2) = attach(o, pl == 0, segs.skip(pl), b, order, tag, p) {
            lemma_set_at_sorted(root, path, o2);
        }
    }
}

/// Every object of a tree built from blocks keeps its keys in increasing order
/// with no key twice (as the keys of a `BTreeMap`).
pub proof fn law_built_tree_sorted(bs: Seq<SpecBlock>, p: Seq<char>)
    ensures
        build_tree(bs, p) matches Ok(t) ==> tree_sorted(t),
    decreases bs.len(),
{
    if bs.len() == 0 {
        assert(tree_sorted(TreeModel::Object(Seq::empty())));
    } else {
        law_built_tree_sorted(bs.drop_last(), p);
        if let Ok(t) = build_tree(bs.drop_last(), p) {
            lemma_insert_block_sorted(t, bs.last(), bs.len() - 1, p);
        }
    }
}

} // verus!
