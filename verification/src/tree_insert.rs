use vstd::prelude::*;
use crate::chars::{chars_to_string, str_to_chars};
use crate::model::{block_views, PmlBlock, PmlError, PmlErrorKind, SpecBlock, SpecError, SpecErrorKind};
use crate::syntax::find_char;
use crate::text::{copy_range, first_index, join_chars, join_on, split_chars, split_on, views};
use crate::tree_build::{attach, not_object_message};
use crate::tree_build::{attach_remaining_path, literal, segs_from};
use crate::tree_meta::{
    apply_block_meta, apply_meta, has_meta, message, message_exec, meta_keys, object_has_meta,
    opt_chars, tree_error, MetaKeys, PmlTreeOptions,
};
use crate::tree_model::{
    entry_model, lemma_array_model, lemma_object_model, obj_get, PmlObject, PmlTreeValue,
    TreeModel,
};

verus! {

/// One step down a tree: into the value of an object's entry, or into an
/// array's element.
pub enum Step {
    Entry(int),
    Item(int),
}

/// The position of the first entry under `k`, or -1.
pub open spec fn find_key(o: Seq<(Seq<char>, TreeModel)>, k: Seq<char>) -> int
    decreases o.len(),
{
    if o.len() == 0 {
        -1
    } else if o[0].0 == k {
        0
    } else {
        let r = find_key(o.drop_first(), k);
        if r < 0 {
            -1
        } else {
            r + 1
        }
    }
}

/// The positions of the object elements of `items[from..]`.
pub open spec fn object_indices(items: Seq<TreeModel>, from: int) -> Seq<int>
    decreases items.len() - from,
{
    if from < 0 || from >= items.len() {
        Seq::empty()
    } else {
        (if items[from] is Object {
            seq![from]
        } else {
            Seq::empty()
        }) + object_indices(items, from + 1)
    }
}

/// Dot-joined path names for messages.
pub open spec fn dots(ls: Seq<Seq<char>>) -> Seq<char> {
    join_on(ls, '.')
}

pub open spec fn missing_path_message(path: Seq<char>) -> Seq<char> {
    message("missing object path `", path, "`")
}

pub open spec fn not_unique_message(path: Seq<char>) -> Seq<char> {
    message("path `", path, "` is not unique")
}

/// The steps from `v` to the object that `full[index..]` names, through arrays
/// with exactly one object element.
pub open spec fn locate_value(v: TreeModel, full: Seq<Seq<char>>, index: int) -> Result<Seq<Step>, SpecErrorKind>
    decreases v,
{
    match v {
        TreeModel::Object(o) => if index >= full.len() {
            Ok(Seq::empty())
        } else {
            let i = find_key(o, full[index]);
            if 0 <= i < o.len() {
                match locate_value(o[i].1, full, index + 1) {
                    Ok(path) => Ok(seq![Step::Entry(i)] + path),
                    Err(e) => Err(e),
                }
            } else {
                Err(SpecErrorKind::InvalidTree(missing_path_message(dots(full.take(index + 1)))))
            }
        },
        TreeModel::Array(items) => {
            let ix = object_indices(items, 0);
            if ix.len() >= 2 {
                Err(SpecErrorKind::InvalidTree(not_unique_message(dots(full.take(index)))))
            } else if ix.len() == 1 && 0 <= ix[0] < items.len() {
                match locate_value(items[ix[0]], full, index) {
                    Ok(path) => Ok(seq![Step::Item(ix[0])] + path),
                    Err(e) => Err(e),
                }
            } else {
                Err(SpecErrorKind::InvalidTree(not_object_message(dots(full.take(index)))))
            }
        },
        _ => Err(SpecErrorKind::InvalidTree(not_object_message(dots(full.take(index))))),
    }
}

/// The steps from the root object to the object that `full` names.
pub open spec fn locate(root: TreeModel, full: Seq<Seq<char>>) -> Result<Seq<Step>, SpecErrorKind> {
    match root {
        TreeModel::Object(o) => if full.len() == 0 {
            Ok(Seq::empty())
        } else {
            let i = find_key(o, full[0]);
            if 0 <= i < o.len() {
                match locate_value(o[i].1, full, 1) {
                    Ok(path) => Ok(seq![Step::Entry(i)] + path),
                    Err(e) => Err(e),
                }
            } else {
                Err(SpecErrorKind::InvalidTree(missing_path_message(full[0])))
            }
        },
        _ => Err(SpecErrorKind::InvalidTree("root must be an object"@)),
    }
}

/// The steps lead through the tree to an object.
pub open spec fn valid_path(v: TreeModel, path: Seq<Step>) -> bool
    decreases path.len(),
{
    if path.len() == 0 {
        v is Object
    } else {
        match (v, path[0]) {
            (TreeModel::Object(o), Step::Entry(i)) => 0 <= i < o.len() && valid_path(o[i].1, path.drop_first()),
            (TreeModel::Array(items), Step::Item(j)) => 0 <= j < items.len() && valid_path(items[j], path.drop_first()),
            _ => false,
        }
    }
}

/// The object that the steps lead to.
pub open spec fn obj_at(v: TreeModel, path: Seq<Step>) -> Seq<(Seq<char>, TreeModel)>
    decreases path.len(),
{
    if path.len() == 0 {
        match v {
            TreeModel::Object(o) => o,
            _ => Seq::empty(),
        }
    } else {
        match (v, path[0]) {
            (TreeModel::Object(o), Step::Entry(i)) => if 0 <= i < o.len() {
                obj_at(o[i].1, path.drop_first())
            } else {
                Seq::empty()
            },
            (TreeModel::Array(items), Step::Item(j)) => if 0 <= j < items.len() {
                obj_at(items[j], path.drop_first())
            } else {
                Seq::empty()
            },
            _ => Seq::empty(),
        }
    }
}

/// The tree with the object that the steps lead to replaced by `x`.
pub open spec fn set_at(v: TreeModel, path: Seq<Step>, x: Seq<(Seq<char>, TreeModel)>) -> TreeModel
    decreases path.len(),
{
    if path.len() == 0 {
        TreeModel::Object(x)
    } else {
        match (v, path[0]) {
            (TreeModel::Object(o), Step::Entry(i)) => if 0 <= i < o.len() {
                TreeModel::Object(o.update(i, (o[i].0, set_at(o[i].1, path.drop_first(), x))))
            } else {
                v
            },
            (TreeModel::Array(items), Step::Item(j)) => if 0 <= j < items.len() {
                TreeModel::Array(items.update(j, set_at(items[j], path.drop_first(), x)))
            } else {
                v
            },
            _ => v,
        }
    }
}

/// The objects directly under a value: itself, or the object elements of an array.
pub open spec fn child_objects(v: Option<TreeModel>) -> Seq<Seq<(Seq<char>, TreeModel)>> {
    match v {
        Some(TreeModel::Object(o)) => seq![o],
        Some(TreeModel::Array(items)) => objects_of(items),
        _ => Seq::empty(),
    }
}

/// The object elements of `items`, in order.
pub open spec fn objects_of(items: Seq<TreeModel>) -> Seq<Seq<(Seq<char>, TreeModel)>>
    decreases items.len(),
{
    if items.len() == 0 {
        Seq::empty()
    } else {
        (match items[0] {
            TreeModel::Object(o) => seq![o],
            _ => Seq::empty(),
        }) + objects_of(items.drop_first())
    }
}

/// The objects reached from the objects `cur` through the key `seg`.
pub open spec fn children(cur: Seq<Seq<(Seq<char>, TreeModel)>>, seg: Seq<char>) -> Seq<Seq<(Seq<char>, TreeModel)>>
    decreases cur.len(),
{
    if cur.len() == 0 {
        Seq::empty()
    } else {
        child_objects(obj_get(cur[0], seg)) + children(cur.drop_first(), seg)
    }
}

/// How many leading segments, from `idx` on, lead to exactly one object each.
pub open spec fn deepest_from(cur: Seq<Seq<(Seq<char>, TreeModel)>>, segs: Seq<Seq<char>>, idx: int) -> int
    decreases segs.len() - idx,
{
    if idx < 0 || idx >= segs.len() {
        idx
    } else {
        let next = children(cur, segs[idx]);
        if next.len() == 1 {
            deepest_from(next, segs, idx + 1)
        } else {
            idx
        }
    }
}

/// The length of the longest prefix of `segs` that leads to exactly one object.
pub open spec fn deepest(root: TreeModel, segs: Seq<Seq<char>>) -> int {
    match root {
        TreeModel::Object(o) => deepest_from(seq![o], segs, 0),
        _ => 0,
    }
}

/// A block name split at its first `#` into main name and tag.
pub open spec fn split_name(name: Seq<char>) -> (Seq<char>, Option<Seq<char>>) {
    let p = first_index(name, '#');
    if p < 0 {
        (name, None)
    } else {
        (name.take(p), Some(name.skip(p + 1)))
    }
}

/// The tree after the block numbered `order` is placed in it.
pub open spec fn insert_block(root: TreeModel, b: SpecBlock, order: int, p: Seq<char>) -> Result<TreeModel, SpecErrorKind> {
    let (main, tag) = split_name(b.name);
    let segs = split_on(main, '.');
    let d = deepest(root, segs);
    let n = segs.len() as int;
    let first: Option<Result<TreeModel, SpecErrorKind>> = if d == n {
        match locate(root, segs) {
            Err(e) => Some(Err(e)),
            Ok(path) => {
                let o = obj_at(root, path);
                if !has_meta(o, p) {
                    Some(
                        match apply_meta(o, b, order, tag, p) {
                            Ok(o2) => Ok(set_at(root, path, o2)),
                            Err(e) => Err(e),
                        },
                    )
                } else {
                    None
                }
            },
        }
    } else {
        None
    };
    match first {
        Some(r) => r,
        None => {
            let pl = if d == n {
                if n == 0 {
                    0
                } else {
                    n - 1
                }
            } else {
                d
            };
            match locate(root, segs.take(pl)) {
                Err(e) => Err(e),
                Ok(path) => match attach(obj_at(root, path), pl == 0, segs.skip(pl), b, order, tag, p) {
                    Ok(o2) => Ok(set_at(root, path, o2)),
                    Err(e) => Err(e),
                },
            }
        },
    }
}

/// The path tree of a block sequence: the blocks placed one after another,
/// each with its position as order.
pub open spec fn build_tree(bs: Seq<SpecBlock>, p: Seq<char>) -> Result<TreeModel, SpecErrorKind>
    decreases bs.len(),
{
    if bs.len() == 0 {
        Ok(TreeModel::Object(Seq::empty()))
    } else {
        match build_tree(bs.drop_last(), p) {
            Err(e) => Err(e),
            Ok(t) => insert_block(t, bs.last(), bs.len() - 1, p),
        }
    }
}

/// One step down a tree, in executable form.
pub enum PathStep {
    Entry(usize),
    Item(usize),
}

impl View for PathStep {
    type V = Step;

    open spec fn view(&self) -> Step {
        match self {
            PathStep::Entry(i) => Step::Entry(*i as int),
            PathStep::Item(j) => Step::Item(*j as int),
        }
    }
}

pub open spec fn steps(ps: Seq<PathStep>) -> Seq<Step> {
    ps.map_values(|s: PathStep| s@)
}

pub proof fn lemma_find_key(m: Seq<(Seq<char>, TreeModel)>, k: Seq<char>, i: int)
    requires
        0 <= i < m.len(),
        m[i].0 == k,
        forall|j: int| 0 <= j < i ==> m[j].0 != k,
    ensures
        find_key(m, k) == i,
    decreases i,
{
    if i > 0 {
        lemma_find_key(m.drop_first(), k, i - 1);
    }
}

pub proof fn lemma_find_key_none(m: Seq<(Seq<char>, TreeModel)>, k: Seq<char>)
    requires
        obj_get(m, k) is None,
    ensures
        find_key(m, k) == -1,
    decreases m.len(),
{
    if m.len() > 0 {
        lemma_find_key_none(m.drop_first(), k);
    }
}

/// Where the object that `full[index..]` names lies below `v`.
fn locate_value_exec(v: &PmlTreeValue, full: &Vec<Vec<char>>, full_len: usize, index: usize) -> (r: Result<Vec<PathStep>, PmlError>)
    requires
        index <= full_len <= full.len(),
    ensures
        match locate_value(v.model(), views(full@).take(full_len as int), index as int) {
            Ok(path) => r matches Ok(ps) && steps(ps@) == path,
            Err(k) => r matches Err(e) && e@ == tree_error(k),
        },
    decreases v,
{
    let ghost fv = views(full@).take(full_len as int);
    match v {
        PmlTreeValue::Object(o) => {
            proof {
                lemma_object_model(*o);
            }
            if index >= full_len {
                let ps: Vec<PathStep> = Vec::new();
                assert(steps(ps@) =~= Seq::<Step>::empty());
                return Ok(ps);
            }
            assert(fv[index as int] == full@[index as int]@);
            match o.find(&full[index]) {
                Some(i) => {
                    proof {
                        lemma_find_key(o.model(), fv[index as int], i as int);
                    }
                    let child = o.value_at(i);
                    let mut ps = locate_value_exec(child, full, full_len, index + 1)?;
                    let ghost rest = steps(ps@);
                    ps.insert(0, PathStep::Entry(i));
                    assert(steps(ps@) =~= seq![Step::Entry(i as int)] + rest);
                    Ok(ps)
                },
                None => {
                    proof {
                        lemma_find_key_none(o.model(), fv[index as int]);
                        assert(views(full@).subrange(0, index + 1) =~= fv.take(index + 1));
                    }
                    let path = join_chars(full, 0, index + 1, '.');
                    Err(PmlError { line: 0, kind: PmlErrorKind::InvalidTree(message_exec("missing object path `", &path, "`")) })
                },
            }
        },
        PmlTreeValue::Array(items) => {
            proof {
                lemma_array_model(*items);
            }
            let ghost im = items@.map_values(|x: PmlTreeValue| x.model());
            let mut found: Option<usize> = None;
            let mut j: usize = 0;
            assert(views(full@).subrange(0, index as int) =~= fv.take(index as int));
            while j < items.len()
                invariant
                    j <= items.len(),
                    index <= full_len <= full.len(),
                    fv == views(full@).take(full_len as int),
                    views(full@).subrange(0, index as int) == fv.take(index as int),
                    v.model() == TreeModel::Array(im),
                    im == items@.map_values(|x: PmlTreeValue| x.model()),
                    object_indices(im, 0) == match found {
                        Some(f) => seq![f as int],
                        None => Seq::<int>::empty(),
                    } + object_indices(im, j as int),
                    found matches Some(f) ==> f < j && im[f as int] is Object,
                decreases items.len() - j,
            {
                let is_obj = match &items[j] {
                    PmlTreeValue::Object(_) => true,
                    _ => false,
                };
                assert(im[j as int] == items@[j as int].model());
                if is_obj {
                    assert(im[j as int] is Object);
                    if found.is_some() {
                        assert(object_indices(im, j as int) =~= seq![j as int] + object_indices(im, j + 1));
                        let path = join_chars(full, 0, index, '.');
                        return Err(PmlError { line: 0, kind: PmlErrorKind::InvalidTree(message_exec("path `", &path, "` is not unique")) });
                    }
                    found = Some(j);
                } else {
                    assert(!(items@[j as int].model() is Object));
                }
                j = j + 1;
            }
            assert(object_indices(im, j as int) =~= Seq::<int>::empty());
            match found {
                Some(f) => {
                    let mut ps = locate_value_exec(&items[f], full, full_len, index)?;
                    let ghost rest = steps(ps@);
                    ps.insert(0, PathStep::Item(f));
                    assert(steps(ps@) =~= seq![Step::Item(f as int)] + rest);
                    Ok(ps)
                },
                None => {
                    let path = join_chars(full, 0, index, '.');
                    Err(PmlError { line: 0, kind: PmlErrorKind::InvalidTree(message_exec("path `", &path, "` does not resolve to an object")) })
                },
            }
        },
        _ => {
            assert(views(full@).subrange(0, index as int) =~= fv.take(index as int));
            let path = join_chars(full, 0, index, '.');
            Err(PmlError { line: 0, kind: PmlErrorKind::InvalidTree(message_exec("path `", &path, "` does not resolve to an object")) })
        },
    }
}

/// Where the object that `full[..full_len]` names lies below the root.
fn locate_exec(root: &PmlTreeValue, full: &Vec<Vec<char>>, full_len: usize) -> (r: Result<Vec<PathStep>, PmlError>)
    requires
        full_len <= full.len(),
    ensures
        match locate(root.model(), views(full@).take(full_len as int)) {
            Ok(path) => r matches Ok(ps) && steps(ps@) == path,
            Err(k) => r matches Err(e) && e@ == tree_error(k),
        },
{
    let ghost fv = views(full@).take(full_len as int);
    match root {
        PmlTreeValue::Object(o) => {
            proof {
                lemma_object_model(*o);
            }
            if full_len == 0 {
                let ps: Vec<PathStep> = Vec::new();
                assert(steps(ps@) =~= Seq::<Step>::empty());
                return Ok(ps);
            }
            assert(fv[0] == full@[0]@);
            match o.find(&full[0]) {
                Some(i) => {
                    proof {
                        lemma_find_key(o.model(), fv[0], i as int);
                    }
                    let mut ps = locate_value_exec(o.value_at(i), full, full_len, 1)?;
                    let ghost rest = steps(ps@);
                    ps.insert(0, PathStep::Entry(i));
                    assert(steps(ps@) =~= seq![Step::Entry(i as int)] + rest);
                    Ok(ps)
                },
                None => {
                    proof {
                        lemma_find_key_none(o.model(), fv[0]);
                    }
                    Err(PmlError { line: 0, kind: PmlErrorKind::InvalidTree(message_exec("missing object path `", &full[0], "`")) })
                },
            }
        },
        _ => Err(PmlError { line: 0, kind: PmlErrorKind::InvalidTree(literal("root must be an object")) }),
    }
}

pub proof fn lemma_locate_value_valid(v: TreeModel, full: Seq<Seq<char>>, index: int)
    ensures
        locate_value(v, full, index) matches Ok(path) ==> valid_path(v, path),
    decreases v,
{
    match v {
        TreeModel::Object(o) => {
            if index < full.len() {
                let i = find_key(o, full[index]);
                if 0 <= i < o.len() {
                    lemma_locate_value_valid(o[i].1, full, index + 1);
                    if let Ok(path) = locate_value(o[i].1, full, index + 1) {
                        assert((seq![Step::Entry(i)] + path).drop_first() =~= path);
                    }
                }
            }
        },
        TreeModel::Array(items) => {
            let ix = object_indices(items, 0);
            if ix.len() == 1 && 0 <= ix[0] < items.len() {
                lemma_locate_value_valid(items[ix[0]], full, index);
                if let Ok(path) = locate_value(items[ix[0]], full, index) {
                    assert((seq![Step::Item(ix[0])] + path).drop_first() =~= path);
                }
            }
        },
        _ => {},
    }
}

pub proof fn lemma_locate_valid(root: TreeModel, full: Seq<Seq<char>>)
    ensures
        locate(root, full) matches Ok(path) ==> valid_path(root, path),
{
    if let TreeModel::Object(o) = root {
        if full.len() > 0 {
            let i = find_key(o, full[0]);
            if 0 <= i < o.len() {
                lemma_locate_value_valid(o[i].1, full, 1);
                if let Ok(path) = locate_value(o[i].1, full, 1) {
                    assert((seq![Step::Entry(i)] + path).drop_first() =~= path);
                }
            }
        }
    }
}

/// Replacing the object at the end of a valid path keeps the path valid, and
/// the object there is then the new one.
pub proof fn lemma_set_at(v: TreeModel, path: Seq<Step>, x: Seq<(Seq<char>, TreeModel)>)
    requires
        valid_path(v, path),
    ensures
        valid_path(set_at(v, path, x), path),
        obj_at(set_at(v, path, x), path) == x,
    decreases path.len(),
{
    if path.len() > 0 {
        lemma_set_at(
            match (v, path[0]) {
                (TreeModel::Object(o), Step::Entry(i)) => o[i].1,
                (TreeModel::Array(items), Step::Item(j)) => items[j],
                _ => v,
            },
            path.drop_first(),
            x,
        );
    }
}

/// Replacing twice at the same valid path is replacing once with the second object.
pub proof fn lemma_set_at_twice(v: TreeModel, path: Seq<Step>, x: Seq<(Seq<char>, TreeModel)>, y: Seq<(Seq<char>, TreeModel)>)
    requires
        valid_path(v, path),
    ensures
        set_at(set_at(v, path, x), path, y) == set_at(v, path, y),
    decreases path.len(),
{
    if path.len() > 0 {
        match (v, path[0]) {
            (TreeModel::Object(o), Step::Entry(i)) => {
                lemma_set_at_twice(o[i].1, path.drop_first(), x, y);
                let o1 = o.update(i, (o[i].0, set_at(o[i].1, path.drop_first(), x)));
                assert(o1.update(i, (o1[i].0, set_at(o1[i].1, path.drop_first(), y))) =~= o.update(i, (o[i].0, set_at(o[i].1, path.drop_first(), y))));
            },
            (TreeModel::Array(items), Step::Item(j)) => {
                lemma_set_at_twice(items[j], path.drop_first(), x, y);
                let i1 = items.update(j, set_at(items[j], path.drop_first(), x));
                assert(i1.update(j, set_at(i1[j], path.drop_first(), y)) =~= items.update(j, set_at(items[j], path.drop_first(), y)));
            },
            _ => {},
        }
    }
}

proof fn lemma_steps_skip(ps: Seq<PathStep>, d: int)
    requires
        0 <= d < ps.len(),
    ensures
        steps(ps).skip(d).len() > 0,
        steps(ps).skip(d)[0] == ps[d]@,
        steps(ps).skip(d).drop_first() == steps(ps).skip(d + 1),
{
    assert(steps(ps).skip(d).drop_first() =~= steps(ps).skip(d + 1));
}

pub open spec fn objs_model(s: Seq<&PmlObject>) -> Seq<Seq<(Seq<char>, TreeModel)>> {
    s.map_values(|o: &PmlObject| o.model())
}

proof fn lemma_objects_of_push(items: Seq<TreeModel>, x: TreeModel)
    ensures
        objects_of(items.push(x)) == objects_of(items) + (match x {
            TreeModel::Object(o) => seq![o],
            _ => Seq::empty(),
        }),
    decreases items.len(),
{
    if items.len() == 0 {
        assert(items.push(x).drop_first() =~= items);
        assert(objects_of(items.push(x)) =~= objects_of(items) + (match x {
            TreeModel::Object(o) => seq![o],
            _ => Seq::empty(),
        }));
    } else {
        assert(items.push(x).drop_first() =~= items.drop_first().push(x));
        lemma_objects_of_push(items.drop_first(), x);
        assert(objects_of(items.push(x)) =~= objects_of(items) + (match x {
            TreeModel::Object(o) => seq![o],
            _ => Seq::empty(),
        }));
    }
}

proof fn lemma_children_push(cur: Seq<Seq<(Seq<char>, TreeModel)>>, o: Seq<(Seq<char>, TreeModel)>, seg: Seq<char>)
    ensures
        children(cur.push(o), seg) == children(cur, seg) + child_objects(obj_get(o, seg)),
    decreases cur.len(),
{
    if cur.len() == 0 {
        assert(cur.push(o).drop_first() =~= cur);
        assert(children(cur.push(o), seg) =~= children(cur, seg) + child_objects(obj_get(o, seg)));
    } else {
        assert(cur.push(o).drop_first() =~= cur.drop_first().push(o));
        lemma_children_push(cur.drop_first(), o, seg);
        assert(children(cur.push(o), seg) =~= children(cur, seg) + child_objects(obj_get(o, seg)));
    }
}

/// Appends the objects directly under `value` to `out`.
fn collect_child_objects<'a>(value: &'a PmlTreeValue, out: &mut Vec<&'a PmlObject>)
    ensures
        objs_model(final(out)@) == objs_model(old(out)@) + child_objects(Some(value.model())),
{
    match value {
        PmlTreeValue::Object(o) => {
            proof {
                lemma_object_model(*o);
            }
            let ghost before = objs_model(out@);
            out.push(o);
            assert(objs_model(out@) =~= before + seq![o.model()]);
        },
        PmlTreeValue::Array(items) => {
            proof {
                lemma_array_model(*items);
            }
            let ghost im = items@.map_values(|x: PmlTreeValue| x.model());
            let ghost base = objs_model(out@);
            let mut j: usize = 0;
            assert(im.take(0) =~= Seq::<TreeModel>::empty());
            assert(objs_model(out@) =~= base + objects_of(im.take(0)));
            while j < items.len()
                invariant
                    j <= items.len(),
                    im == items@.map_values(|x: PmlTreeValue| x.model()),
                    objs_model(out@) == base + objects_of(im.take(j as int)),
                decreases items.len() - j,
            {
                proof {
                    assert(im.take(j + 1) =~= im.take(j as int).push(im[j as int]));
                    lemma_objects_of_push(im.take(j as int), im[j as int]);
                }
                match &items[j] {
                    PmlTreeValue::Object(o) => {
                        proof {
                            lemma_object_model(*o);
                        }
                        let ghost before = objs_model(out@);
                        out.push(o);
                        assert(objs_model(out@) =~= before + seq![o.model()]);
                        assert(objs_model(out@) =~= base + objects_of(im.take(j + 1)));
                    },
                    other => {
                        assert(!(im[j as int] is Object));
                        assert(objs_model(out@) =~= base + objects_of(im.take(j + 1)));
                    },
                }
                j = j + 1;
            }
            assert(im.take(j as int) =~= im);
        },
        _ => {
            assert(objs_model(out@) =~= objs_model(out@) + child_objects(Some(value.model())));
        },
    }
}

/// How many leading segments lead to exactly one object each.
fn deepest_unique_prefix(root: &PmlTreeValue, segs: &Vec<Vec<char>>) -> (d: usize)
    ensures
        d == deepest(root.model(), views(segs@)),
{
    let ghost sv = views(segs@);
    let o = match root {
        PmlTreeValue::Object(o) => o,
        _ => {
            return 0;
        },
    };
    proof {
        lemma_object_model(*o);
    }
    let mut current: Vec<&PmlObject> = Vec::new();
    current.push(o);
    assert(objs_model(current@) =~= seq![o.model()]);
    let mut index: usize = 0;
    while index < segs.len()
        invariant
            index <= segs.len(),
            sv == views(segs@),
            deepest(root.model(), sv) == deepest_from(objs_model(current@), sv, index as int),
        decreases segs.len() - index,
    {
        let seg = &segs[index];
        assert(sv[index as int] == seg@);
        let ghost cur = objs_model(current@);
        let mut next: Vec<&PmlObject> = Vec::new();
        let mut k: usize = 0;
        assert(cur.take(0) =~= Seq::<Seq<(Seq<char>, TreeModel)>>::empty());
        assert(objs_model(next@) =~= children(cur.take(0), seg@));
        while k < current.len()
            invariant
                k <= current.len(),
                cur == objs_model(current@),
                objs_model(next@) == children(cur.take(k as int), seg@),
            decreases current.len() - k,
        {
            let obj = current[k];
            proof {
                assert(cur.take(k + 1) =~= cur.take(k as int).push(cur[k as int]));
                lemma_children_push(cur.take(k as int), cur[k as int], seg@);
                assert(cur[k as int] == obj.model());
            }
            match obj.find(seg) {
                Some(i) => {
                    collect_child_objects(obj.value_at(i), &mut next);
                },
                None => {
                    assert(objs_model(next@) =~= children(cur.take(k as int), seg@) + child_objects(obj_get(cur[k as int], seg@)));
                },
            }
            k = k + 1;
        }
        assert(cur.take(k as int) =~= cur);
        if next.len() == 1 {
            current = next;
            index = index + 1;
        } else {
            return index;
        }
    }
    index
}

/// The object at the end of the path `path[depth..]` (none when the path
/// does not lead to an object).
fn object_at<'a>(v: &'a PmlTreeValue, path: &Vec<PathStep>, depth: usize) -> (r: Option<&'a PmlObject>)
    requires
        depth <= path.len(),
    ensures
        valid_path(v.model(), steps(path@).skip(depth as int)) ==> (r matches Some(o) && o.model() == obj_at(v.model(), steps(path@).skip(depth as int))),
    decreases path.len() - depth,
{
    if depth == path.len() {
        assert(steps(path@).skip(depth as int) =~= Seq::<Step>::empty());
        match v {
            PmlTreeValue::Object(o) => {
                proof {
                    lemma_object_model(*o);
                }
                Some(o)
            },
            _ => None,
        }
    } else {
        proof {
            lemma_steps_skip(path@, depth as int);
        }
        match (v, &path[depth]) {
            (PmlTreeValue::Object(o), PathStep::Entry(i)) => {
                proof {
                    lemma_object_model(*o);
                }
                if *i < o.len() {
                    object_at(o.value_at(*i), path, depth + 1)
                } else {
                    None
                }
            },
            (PmlTreeValue::Array(items), PathStep::Item(j)) => {
                proof {
                    lemma_array_model(*items);
                }
                if *j < items.len() {
                    object_at(&items[*j], path, depth + 1)
                } else {
                    None
                }
            },
            _ => None,
        }
    }
}

/// Puts `x` at the end of the path `path[depth..]` and gives back the object
/// that was there.
fn swap_object_at(v: PmlTreeValue, path: &Vec<PathStep>, depth: usize, x: PmlObject) -> (r: (PmlTreeValue, PmlObject))
    requires
        depth <= path.len(),
        valid_path(v.model(), steps(path@).skip(depth as int)),
    ensures
        r.0.model() == set_at(v.model(), steps(path@).skip(depth as int), x.model()),
        r.1.model() == obj_at(v.model(), steps(path@).skip(depth as int)),
    decreases path.len() - depth,
{
    let ghost vm = v.model();
    let ghost sp = steps(path@).skip(depth as int);
    if depth == path.len() {
        assert(sp =~= Seq::<Step>::empty());
        proof {
            lemma_object_model(x);
        }
        match v {
            PmlTreeValue::Object(o) => {
                proof {
                    lemma_object_model(o);
                }
                (PmlTreeValue::Object(x), o)
            },
            other => (other, x),
        }
    } else {
        proof {
            lemma_steps_skip(path@, depth as int);
        }
        match v {
            PmlTreeValue::Object(mut o) => {
                proof {
                    lemma_object_model(o);
                }
                match path[depth] {
                    PathStep::Entry(i) => {
                        let ghost om = o.model();
                        let (k, child) = o.take_at(i);
                        let (child2, old) = swap_object_at(child, path, depth + 1, x);
                        let ghost cm = child2.model();
                        o.put_at(i, (k, child2));
                        proof {
                            lemma_object_model(o);
                            assert(o.model() =~= om.update(i as int, (om[i as int].0, cm)));
                        }
                        (PmlTreeValue::Object(o), old)
                    },
                    PathStep::Item(_) => (PmlTreeValue::Object(o), x),
                }
            },
            PmlTreeValue::Array(mut items) => {
                proof {
                    lemma_array_model(items);
                }
                match path[depth] {
                    PathStep::Item(j) => {
                        let ghost old_items = items@;
                        let child = items.remove(j);
                        let (child2, old) = swap_object_at(child, path, depth + 1, x);
                        items.insert(j, child2);
                        proof {
                            lemma_array_model(items);
                            assert(items@.map_values(|y: PmlTreeValue| y.model()) =~= old_items.map_values(|y: PmlTreeValue| y.model()).update(j as int, child2.model()));
                        }
                        (PmlTreeValue::Array(items), old)
                    },
                    PathStep::Entry(_) => (PmlTreeValue::Array(items), x),
                }
            },
            other => (other, x),
        }
    }
}

proof fn lemma_deepest_from_bounds(cur: Seq<Seq<(Seq<char>, TreeModel)>>, segs: Seq<Seq<char>>, idx: int)
    requires
        0 <= idx <= segs.len(),
    ensures
        idx <= deepest_from(cur, segs, idx) <= segs.len(),
    decreases segs.len() - idx,
{
    if idx < segs.len() {
        let next = children(cur, segs[idx]);
        if next.len() == 1 {
            lemma_deepest_from_bounds(next, segs, idx + 1);
        }
    }
}

pub proof fn lemma_deepest_bounds(root: TreeModel, segs: Seq<Seq<char>>)
    ensures
        0 <= deepest(root, segs) <= segs.len(),
{
    if let TreeModel::Object(o) = root {
        lemma_deepest_from_bounds(seq![o], segs, 0);
    }
}

/// Places the block numbered `order` in the tree.
fn insert_block_into_tree(root: PmlTreeValue, block: &PmlBlock, order: i64, keys: &MetaKeys, p: &Vec<char>) -> (r: Result<PmlTreeValue, PmlError>)
    requires
        keys.for_prefix(p@),
    ensures
        match insert_block(root.model(), block@, order as int, p@) {
            Ok(t) => r matches Ok(v) && v.model() == t,
            Err(k) => r matches Err(e) && e@ == tree_error(k),
        },
{
    let ghost rm = root.model();
    let name = str_to_chars(block.name.as_str());
    let n = name.len();
    assert(name@.subrange(0, n as int) =~= name@);
    let (main_end, tag) = match find_char(&name, 0, n, '#') {
        Some(q) => {
            let t = copy_range(&name, q + 1, n);
            assert(name@.skip(q + 1) =~= t@);
            (q, Some(t))
        },
        None => (n, None),
    };
    let main = copy_range(&name, 0, main_end);
    assert(split_name(block@.name) == (main@, opt_chars(tag))) by {
        if main_end < n {
            assert(name@.take(main_end as int) =~= main@);
        } else {
            assert(name@.subrange(0, main_end as int) =~= name@);
        }
    }
    let segs = split_chars(&main, '.');
    let ghost sv = views(segs@);
    let d = deepest_unique_prefix(&root, &segs);
    let len = segs.len();
    proof {
        lemma_deepest_bounds(rm, sv);
    }
    assert(sv.take(len as int) =~= sv);
    let root = root;
    if d == len {
        let path = locate_exec(&root, &segs, len)?;
        let ghost sp = steps(path@);
        assert(sp.skip(0) =~= sp);
        proof {
            lemma_locate_valid(rm, sv);
        }
        let target = object_at(&root, &path, 0);
        let with_meta = match target {
            Some(o) => object_has_meta(o, keys, Ghost(p@)),
            None => {
                assert(false);
                true
            },
        };
        if !with_meta {
            let (t1, mut obj) = swap_object_at(root, &path, 0, PmlObject::new());
            apply_block_meta(&mut obj, block, order, &tag, keys, p)?;
            proof {
                lemma_set_at(rm, sp, Seq::empty());
                lemma_set_at_twice(rm, sp, Seq::empty(), obj.model());
            }
            let (t2, _) = swap_object_at(t1, &path, 0, obj);
            return Ok(t2);
        }
    }
    let pl = if d == len {
        if len == 0 {
            0
        } else {
            len - 1
        }
    } else {
        d
    };
    let path = locate_exec(&root, &segs, pl)?;
    let ghost sp = steps(path@);
    assert(sp.skip(0) =~= sp);
    proof {
        lemma_locate_valid(rm, sv.take(pl as int));
    }
    let (t1, mut parent) = swap_object_at(root, &path, 0, PmlObject::new());
    assert(segs_from(segs@, pl as int) =~= sv.skip(pl as int));
    attach_remaining_path(&mut parent, pl == 0, &segs, pl, block, order, &tag, keys, p)?;
    proof {
        lemma_set_at(rm, sp, Seq::empty());
        lemma_set_at_twice(rm, sp, Seq::empty(), parent.model());
    }
    let (t2, _) = swap_object_at(t1, &path, 0, parent);
    Ok(t2)
}

proof fn lemma_build_tree_err(bs: Seq<SpecBlock>, i: int, p: Seq<char>)
    requires
        0 <= i <= bs.len(),
        build_tree(bs.take(i), p) is Err,
    ensures
        build_tree(bs, p) == build_tree(bs.take(i), p),
    decreases bs.len() - i,
{
    if i < bs.len() {
        assert(bs.take(i + 1).drop_last() =~= bs.take(i));
        lemma_build_tree_err(bs, i + 1, p);
    } else {
        assert(bs.take(i) =~= bs);
    }
}

/// The path tree of a block sequence.
pub fn blocks_to_tree(blocks: &[PmlBlock], options: &PmlTreeOptions) -> (r: Result<PmlTreeValue, PmlError>)
    requires
        blocks@.len() <= i64::MAX,
    ensures
        match build_tree(block_views(blocks@), options.meta_prefix@) {
            Ok(t) => r matches Ok(v) && v.model() == t,
            Err(k) => r matches Err(e) && e@ == tree_error(k),
        },
{
    let p = str_to_chars(options.meta_prefix.as_str());
    let keys = meta_keys(&p);
    let ghost bs = block_views(blocks@);
    let mut root = PmlTreeValue::Object(PmlObject::new());
    assert(root.model() == TreeModel::Object(Seq::empty())) by {
        if let PmlTreeValue::Object(o) = root {
            lemma_object_model(o);
        }
    }
    let mut i: usize = 0;
    assert(bs.take(0) =~= Seq::<SpecBlock>::empty());
    while i < blocks.len()
        invariant
            i <= blocks.len(),
            blocks@.len() <= i64::MAX,
            bs == block_views(blocks@),
            p@ == options.meta_prefix@,
            keys.for_prefix(p@),
            build_tree(bs.take(i as int), p@) == Ok::<TreeModel, SpecErrorKind>(root.model()),
        decreases blocks.len() - i,
    {
        assert(bs.take(i + 1).drop_last() =~= bs.take(i as int));
        assert(bs.take(i + 1).last() == blocks@[i as int]@);
        let next = insert_block_into_tree(root, &blocks[i], i as i64, &keys, &p);
        match next {
            Ok(t) => {
                root = t;
            },
            Err(e) => {
                proof {
                    lemma_build_tree_err(bs, i + 1, p@);
                }
                return Err(e);
            },
        }
        i = i + 1;
    }
    assert(bs.take(i as int) =~= bs);
    Ok(root)
}

} // verus!
