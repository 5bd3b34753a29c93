use vstd::prelude::*;
use crate::chars::{chars_to_string, str_to_chars};
use crate::model::{PmlBlock, PmlError, PmlErrorKind, SpecBlock, SpecError, SpecErrorKind};
use crate::tree_meta::{
    apply_block_meta, apply_meta, has_meta, is_reserved, is_reserved_child_key, message,
    message_exec, object_has_meta, opt_chars, tree_error, MetaKeys,
};
use crate::tree_model::{
    entry_model, lemma_obj_set_at, obj_get, obj_insert, obj_remove, obj_set, PmlObject,
    PmlTreeValue, TreeModel,
};

verus! {

/// A fresh object holding a block's meta fields.
pub open spec fn leaf(b: SpecBlock, order: int, tag: Option<Seq<char>>, p: Seq<char>) -> Result<Seq<(Seq<char>, TreeModel)>, SpecErrorKind> {
    apply_meta(Seq::empty(), b, order, tag, p)
}

/// The value `{tail[0]: {tail[1]: ... {leaf}}}`; no key of it may be a meta key.
pub open spec fn chain(tail: Seq<Seq<char>>, lf: Seq<(Seq<char>, TreeModel)>, p: Seq<char>) -> Result<TreeModel, SpecErrorKind>
    decreases tail.len(),
{
    if tail.len() == 0 {
        Ok(TreeModel::Object(lf))
    } else {
        match chain(tail.drop_first(), lf, p) {
            Err(e) => Err(e),
            Ok(inner) => if is_reserved(tail[0], p) {
                Err(SpecErrorKind::MetaFieldConflict(tail[0]))
            } else {
                Ok(TreeModel::Object(seq![(tail[0], inner)]))
            },
        }
    }
}

pub open spec fn not_object_message(key: Seq<char>) -> Seq<char> {
    message("path `", key, "` does not resolve to an object")
}

/// Hangs the block under `parent` along the path `rem`: into an object without
/// meta fields, as a new array element, or as a new branch.
pub open spec fn attach(parent: Seq<(Seq<char>, TreeModel)>, is_root: bool, rem: Seq<Seq<char>>, b: SpecBlock, order: int, tag: Option<Seq<char>>, p: Seq<char>) -> Result<Seq<(Seq<char>, TreeModel)>, SpecErrorKind>
    decreases rem.len(),
{
    if rem.len() == 0 {
        Err(SpecErrorKind::InvalidTree("empty path cannot be attached"@))
    } else if !is_root && is_reserved(rem[0], p) {
        Err(SpecErrorKind::MetaFieldConflict(rem[0]))
    } else {
        let key = rem[0];
        match leaf(b, order, tag, p) {
            Err(e) => Err(e),
            Ok(lf) => if rem.len() == 1 {
                match obj_get(parent, key) {
                    Some(TreeModel::Object(o)) => if has_meta(o, p) {
                        Ok(obj_insert(obj_remove(parent, key), key, TreeModel::Array(seq![TreeModel::Object(o), TreeModel::Object(lf)])))
                    } else {
                        match apply_meta(o, b, order, tag, p) {
                            Ok(o2) => Ok(obj_set(parent, key, TreeModel::Object(o2))),
                            Err(e) => Err(e),
                        }
                    },
                    Some(TreeModel::Array(items)) => Ok(obj_set(parent, key, TreeModel::Array(items.push(TreeModel::Object(lf))))),
                    Some(_) => Err(SpecErrorKind::InvalidTree(not_object_message(key))),
                    None => Ok(obj_insert(parent, key, TreeModel::Object(lf))),
                }
            } else {
                match chain(rem.drop_first(), lf, p) {
                    Err(e) => Err(e),
                    Ok(branch) => match obj_get(parent, key) {
                        Some(TreeModel::Object(o)) => match attach(o, false, rem.drop_first(), b, order, tag, p) {
                            Ok(o2) => Ok(obj_set(parent, key, TreeModel::Object(o2))),
                            Err(e) => Err(e),
                        },
                        Some(TreeModel::Array(items)) => Ok(obj_set(parent, key, TreeModel::Array(items.push(branch)))),
                        Some(_) => Err(SpecErrorKind::InvalidTree(not_object_message(key))),
                        None => Ok(obj_insert(parent, key, branch)),
                    },
                }
            },
        }
    }
}

/// The views of a sequence of character vectors, from position `start` on.
pub open spec fn segs_from(v: Seq<Vec<char>>, start: int) -> Seq<Seq<char>> {
    v.skip(start).map_values(|s: Vec<char>| s@)
}

pub proof fn lemma_segs_from_step(v: Seq<Vec<char>>, q: int)
    requires
        0 <= q < v.len(),
    ensures
        segs_from(v, q).len() > 0,
        segs_from(v, q)[0] == v[q]@,
        segs_from(v, q).drop_first() == segs_from(v, q + 1),
{
    assert(segs_from(v, q).drop_first() =~= segs_from(v, q + 1));
}

/// An error in the inner part of a chain is the error of the whole chain.
pub proof fn lemma_chain_err_propagates(v: Seq<Vec<char>>, a: int, q: int, lf: Seq<(Seq<char>, TreeModel)>, p: Seq<char>)
    requires
        0 <= a <= q <= v.len(),
        chain(segs_from(v, q), lf, p) is Err,
    ensures
        chain(segs_from(v, a), lf, p) == chain(segs_from(v, q), lf, p),
    decreases q - a,
{
    if a < q {
        lemma_chain_err_propagates(v, a + 1, q, lf, p);
        lemma_segs_from_step(v, a);
    }
}

/// A fresh object holding the block's meta fields.
fn build_leaf_object(block: &PmlBlock, order: i64, tag: &Option<Vec<char>>, keys: &MetaKeys, p: &Vec<char>) -> (r: Result<PmlObject, PmlError>)
    requires
        keys.for_prefix(p@),
    ensures
        match leaf(block@, order as int, opt_chars(*tag), p@) {
            Ok(m) => r matches Ok(o) && o.model() == m,
            Err(k) => r matches Err(e) && e@ == tree_error(k),
        },
{
    let mut o = PmlObject::new();
    apply_block_meta(&mut o, block, order, tag, keys, p)?;
    Ok(o)
}

/// The object `{key: value}`.
fn single_entry(key: &Vec<char>, value: PmlTreeValue) -> (o: PmlObject)
    ensures
        o.model() == seq![(key@, value.model())],
{
    let mut o = PmlObject::new();
    o.insert(chars_to_string(key), value);
    assert(o.model() =~= seq![(key@, value.model())]);
    o
}

/// Wraps the leaf in one object per segment of `segs[start..]`, innermost last.
fn build_chain_value(segs: &Vec<Vec<char>>, start: usize, lf: PmlObject, keys: &MetaKeys, p: &Vec<char>) -> (r: Result<PmlTreeValue, PmlError>)
    requires
        keys.for_prefix(p@),
        start <= segs.len(),
    ensures
        match chain(segs_from(segs@, start as int), lf.model(), p@) {
            Ok(m) => r matches Ok(v) && v.model() == m,
            Err(k) => r matches Err(e) && e@ == tree_error(k),
        },
{
    let ghost lm = lf.model();
    let mut current = PmlTreeValue::Object(lf);
    proof {
        crate::tree_model::lemma_object_model(lf);
    }
    let mut j = segs.len();
    assert(segs_from(segs@, j as int) =~= Seq::<Seq<char>>::empty());
    while j > start
        invariant
            start <= j <= segs.len(),
            keys.for_prefix(p@),
            lm == lf.model(),
            chain(segs_from(segs@, j as int), lm, p@) == Ok::<TreeModel, SpecErrorKind>(current.model()),
        decreases j - start,
    {
        proof {
            lemma_segs_from_step(segs@, j - 1);
        }
        let seg = &segs[j - 1];
        if is_reserved_child_key(seg, keys, Ghost(p@)) {
            proof {
                let t = segs_from(segs@, j - 1);
                assert(chain(t.drop_first(), lm, p@) == Ok::<TreeModel, SpecErrorKind>(current.model()));
                assert(is_reserved(t[0], p@));
                assert(chain(t, lm, p@) is Err);
                lemma_chain_err_propagates(segs@, start as int, j - 1, lm, p@);
            }
            return Err(PmlError { line: 0, kind: PmlErrorKind::MetaFieldConflict(chars_to_string(seg)) });
        }
        let ghost inner = current.model();
        let o = single_entry(seg, current);
        proof {
            crate::tree_model::lemma_object_model(o);
        }
        current = PmlTreeValue::Object(o);
        j = j - 1;
    }
    Ok(current)
}

/// A `String` holding the characters of a string slice.
pub fn literal(s: &str) -> (r: String)
    ensures
        r@ == s@,
{
    let v = str_to_chars(s);
    chars_to_string(&v)
}

proof fn lemma_set_by_take_put(m: Seq<(Seq<char>, TreeModel)>, k: Seq<char>, v: TreeModel, i: int)
    requires
        0 <= i < m.len(),
        m[i].0 == k,
        forall|j: int| 0 <= j < i ==> m[j].0 != k,
    ensures
        m.remove(i).insert(i, (k, v)) == obj_set(m, k, v),
{
    lemma_obj_set_at(m, k, v, i);
    assert(m.remove(i).insert(i, (k, v)) =~= m.update(i, (k, v)));
}

proof fn lemma_array_push_model(items: Vec<PmlTreeValue>, x: PmlTreeValue, items2: Vec<PmlTreeValue>)
    requires
        items2@ == items@.push(x),
    ensures
        PmlTreeValue::Array(items2).model() == TreeModel::Array(PmlTreeValue::Array(items).model()->Array_0.push(x.model())),
{
    crate::tree_model::lemma_array_model(items);
    crate::tree_model::lemma_array_model(items2);
    assert(items2@.map_values(|v: PmlTreeValue| v.model()) =~= items@.map_values(|v: PmlTreeValue| v.model()).push(x.model()));
}

/// Hangs the block under `parent` along the path `segs[start..]`.
pub(crate) fn attach_remaining_path(
    parent: &mut PmlObject,
    parent_is_root: bool,
    segs: &Vec<Vec<char>>,
    start: usize,
    block: &PmlBlock,
    order: i64,
    tag: &Option<Vec<char>>,
    keys: &MetaKeys,
    p: &Vec<char>,
) -> (r: Result<(), PmlError>)
    requires
        start <= segs.len(),
        keys.for_prefix(p@),
    ensures
        match attach(old(parent).model(), parent_is_root, segs_from(segs@, start as int), block@, order as int, opt_chars(*tag), p@) {
            Ok(m) => r is Ok && final(parent).model() == m,
            Err(k) => r matches Err(e) && e@ == tree_error(k) && final(parent).model() == old(parent).model(),
        },
    decreases segs.len() - start,
{
    if start >= segs.len() {
        assert(segs_from(segs@, start as int) =~= Seq::<Seq<char>>::empty());
        return Err(PmlError { line: 0, kind: PmlErrorKind::InvalidTree(literal("empty path cannot be attached")) });
    }
    proof {
        lemma_segs_from_step(segs@, start as int);
    }
    let key = &segs[start];
    if !parent_is_root && is_reserved_child_key(key, keys, Ghost(p@)) {
        return Err(PmlError { line: 0, kind: PmlErrorKind::MetaFieldConflict(chars_to_string(key)) });
    }
    let lf = build_leaf_object(block, order, tag, keys, p)?;
    let ghost m = parent.model();
    let ghost lm = lf.model();
    if start + 1 == segs.len() {
        assert(segs_from(segs@, start as int).len() == 1);
        match parent.find(key) {
            Some(i) => {
                let kind: u8 = match parent.value_at(i) {
                    PmlTreeValue::Object(o) => {
                        proof {
                            crate::tree_model::lemma_object_model(*o);
                        }
                        if object_has_meta(o, keys, Ghost(p@)) {
                            0
                        } else {
                            1
                        }
                    },
                    PmlTreeValue::Array(items) => {
                        proof {
                            crate::tree_model::lemma_array_model(*items);
                        }
                        2
                    },
                    _ => 3,
                };
                if kind == 3 {
                    return Err(PmlError { line: 0, kind: PmlErrorKind::InvalidTree(message_exec("path `", key, "` does not resolve to an object")) });
                }
                let (k, v) = parent.take_at(i);
                if kind == 0 {
                    proof {
                        crate::tree_model::lemma_obj_remove_at(m, key@, i as int);
                    }
                    let ghost vm = v.model();
                    let lfv = PmlTreeValue::Object(lf);
                    let arr: Vec<PmlTreeValue> = vec![v, lfv];
                    proof {
                        crate::tree_model::lemma_object_model(lf);
                        crate::tree_model::lemma_array_model(arr);
                        assert(arr@.map_values(|x: PmlTreeValue| x.model()) =~= seq![vm, TreeModel::Object(lm)]);
                    }
                    parent.insert(chars_to_string(key), PmlTreeValue::Array(arr));
                    Ok(())
                } else {
                    match v {
                        PmlTreeValue::Object(mut o) => {
                            proof {
                                crate::tree_model::lemma_object_model(o);
                                assert(obj_get(m, key@) == Some(TreeModel::Object(o.model())));
                            }
                            proof {
                                crate::tree_roundtrip::lemma_apply_meta_ok(o.model(), block@, order as int, opt_chars(*tag), p@);
                            }
                            match apply_block_meta(&mut o, block, order, tag, keys, p) {
                                Ok(()) => {},
                                Err(e) => {
                                    return Err(e);
                                },
                            }
                            let ghost om = o.model();
                            proof {
                                crate::tree_model::lemma_object_model(o);
                                lemma_set_by_take_put(m, key@, TreeModel::Object(om), i as int);
                            }
                            parent.put_at(i, (k, PmlTreeValue::Object(o)));
                            Ok(())
                        },
                        PmlTreeValue::Array(items) => {
                            let ghost old_items = items;
                            let mut items = items;
                            let lfv = PmlTreeValue::Object(lf);
                            proof {
                                crate::tree_model::lemma_object_model(lf);
                            }
                            items.push(lfv);
                            proof {
                                lemma_array_push_model(old_items, lfv, items);
                                lemma_set_by_take_put(m, key@, PmlTreeValue::Array(items).model(), i as int);
                            }
                            parent.put_at(i, (k, PmlTreeValue::Array(items)));
                            Ok(())
                        },
                        _ => {
                            assert(false);
                            Err(PmlError { line: 0, kind: PmlErrorKind::ExpectedBlockHeader })
                        },
                    }
                }
            },
            None => {
                proof {
                    crate::tree_model::lemma_object_model(lf);
                }
                parent.insert(chars_to_string(key), PmlTreeValue::Object(lf));
                Ok(())
            },
        }
    } else {
        let branch = build_chain_value(segs, start + 1, lf, keys, p)?;
        match parent.find(key) {
            Some(i) => {
                let kind: u8 = match parent.value_at(i) {
                    PmlTreeValue::Object(o) => {
                        proof {
                            crate::tree_model::lemma_object_model(*o);
                        }
                        0
                    },
                    PmlTreeValue::Array(items) => {
                        proof {
                            crate::tree_model::lemma_array_model(*items);
                        }
                        1
                    },
                    _ => 2,
                };
                if kind == 2 {
                    return Err(PmlError { line: 0, kind: PmlErrorKind::InvalidTree(message_exec("path `", key, "` does not resolve to an object")) });
                }
                let (k, v) = parent.take_at(i);
                match v {
                    PmlTreeValue::Object(mut o) => {
                        proof {
                            crate::tree_model::lemma_object_model(o);
                            assert(obj_get(m, key@) == Some(TreeModel::Object(o.model())));
                        }
                        let ghost before = o.model();
                        match attach_remaining_path(&mut o, false, segs, start + 1, block, order, tag, keys, p) {
                            Ok(()) => {},
                            Err(e) => {
                                proof {
                                    crate::tree_model::lemma_object_model(o);
                                }
                                parent.put_at(i, (k, PmlTreeValue::Object(o)));
                                assert(parent.model() =~= m);
                                return Err(e);
                            },
                        }
                        let ghost om = o.model();
                        proof {
                            crate::tree_model::lemma_object_model(o);
                            lemma_set_by_take_put(m, key@, TreeModel::Object(om), i as int);
                        }
                        parent.put_at(i, (k, PmlTreeValue::Object(o)));
                        Ok(())
                    },
                    PmlTreeValue::Array(items) => {
                        let ghost old_items = items;
                        let mut items = items;
                        let ghost bm = branch.model();
                        items.push(branch);
                        proof {
                            lemma_array_push_model(old_items, branch, items);
                            lemma_set_by_take_put(m, key@, PmlTreeValue::Array(items).model(), i as int);
                        }
                        parent.put_at(i, (k, PmlTreeValue::Array(items)));
                        Ok(())
                    },
                    _ => {
                        assert(false);
                        Err(PmlError { line: 0, kind: PmlErrorKind::ExpectedBlockHeader })
                    },
                }
            },
            None => {
                parent.insert(chars_to_string(key), branch);
                Ok(())
            },
        }
    }
}

} // verus!
