use vstd::prelude::*;
use crate::chars::{chars_to_string, str_to_chars};
use crate::model::{block_views, PmlBlock, PmlError, PmlErrorKind, SpecBlock, SpecError, SpecErrorKind};
use crate::syntax::{is_valid_name, normalize_type, normalize_type_range, text_type, text_type_exec, valid_name};
use crate::text::{join_chars, normalize, normalize_newlines, views};
use crate::tree_build::literal;
use crate::tree_insert::dots;
use crate::tree_meta::{
    is_reserved, is_reserved_child_key, message, message_exec, meta_key, meta_keys, tree_error,
    MetaKeys, PmlTreeOptions, content_field, order_field, tag_field, type_field,
};
use crate::tree_model::{lemma_array_model, lemma_object_model, obj_get, sorted_keys, PmlObject, PmlTreeValue, TreeModel};

verus! {

/// The meta fields read from an object.
pub struct SpecMeta {
    pub ty: Option<Seq<char>>,
    pub content: Option<Seq<char>>,
    pub tag: Option<Seq<char>>,
    pub order: Option<int>,
}

impl SpecMeta {
    pub open spec fn has_any(self) -> bool {
        self.ty is Some || self.content is Some || self.tag is Some || self.order is Some
    }
}

/// A string meta field, when present; an error when it holds anything else.
pub open spec fn meta_string(o: Seq<(Seq<char>, TreeModel)>, key: Seq<char>) -> Result<Option<Seq<char>>, SpecErrorKind> {
    match obj_get(o, key) {
        None => Ok(None),
        Some(TreeModel::String(s)) => Ok(Some(s)),
        Some(_) => Err(SpecErrorKind::InvalidTree(message("meta field `", key, "` must be a string"))),
    }
}

/// The order meta field, when present; an error when it is not a non-negative integer.
pub open spec fn meta_order(o: Seq<(Seq<char>, TreeModel)>, key: Seq<char>) -> Result<Option<int>, SpecErrorKind> {
    match obj_get(o, key) {
        None => Ok(None),
        Some(TreeModel::Integer(n)) => if n < 0 {
            Err(SpecErrorKind::InvalidTree(message("meta field `", key, "` must be a non-negative integer")))
        } else {
            Ok(Some(n))
        },
        Some(_) => Err(SpecErrorKind::InvalidTree(message("meta field `", key, "` must be an integer"))),
    }
}

/// The four meta fields of an object, read in the order type, content, tag, order.
pub open spec fn extract_meta(o: Seq<(Seq<char>, TreeModel)>, p: Seq<char>) -> Result<SpecMeta, SpecErrorKind> {
    match meta_string(o, meta_key(p, type_field())) {
        Err(e) => Err(e),
        Ok(ty) => match meta_string(o, meta_key(p, content_field())) {
            Err(e) => Err(e),
            Ok(content) => match meta_string(o, meta_key(p, tag_field())) {
                Err(e) => Err(e),
                Ok(tag) => match meta_order(o, meta_key(p, order_field())) {
                    Err(e) => Err(e),
                    Ok(order) => Ok(SpecMeta { ty, content, tag, order }),
                },
            },
        },
    }
}

/// Every object that reading the blocks of `v` goes through (along plain keys
/// and array elements) has strictly increasing keys.
pub open spec fn visited_sorted(v: TreeModel, p: Seq<char>) -> bool
    decreases v,
{
    match v {
        TreeModel::Object(o) => sorted_keys(o) && forall|i: int|
            #![trigger o[i]]
            0 <= i < o.len() && !is_reserved(o[i].0, p) ==> visited_sorted(o[i].1, p),
        TreeModel::Array(items) => forall|j: int| 0 <= j < items.len() ==> visited_sorted(#[trigger] items[j], p),
        _ => true,
    }
}

/// A block read back from the tree, with its order when it has one.
pub type Collected = (SpecBlock, Option<int>);

/// The block that an object's meta fields describe (none when it has none).
pub open spec fn block_of(o: Seq<(Seq<char>, TreeModel)>, path: Seq<Seq<char>>, p: Seq<char>) -> Result<Seq<Collected>, SpecErrorKind> {
    match extract_meta(o, p) {
        Err(e) => Err(e),
        Ok(m) => if !m.has_any() {
            Ok(Seq::empty())
        } else {
            let base = dots(path);
            let name = match m.tag {
                Some(t) => base + seq!['#'] + t,
                None => base,
            };
            if !valid_name(name) {
                Err(SpecErrorKind::InvalidName(name))
            } else {
                match normalize_type(match m.ty { Some(t) => t, None => text_type() }) {
                    Err(k) => Err(k),
                    Ok(ty) => {
                        let content = normalize(match m.content {
                            Some(c) => c,
                            None => Seq::empty(),
                        });
                        let blk = SpecBlock { name: name, ty: ty, content: content, paired: false };
                        Ok(seq![(blk, m.order)])
                    },
                }
            }
        },
    }
}

/// Concatenates two results that may fail (the first failure wins).
pub open spec fn concat_results(a: Result<Seq<Collected>, SpecErrorKind>, b: Result<Seq<Collected>, SpecErrorKind>) -> Result<Seq<Collected>, SpecErrorKind> {
    match a {
        Err(e) => Err(e),
        Ok(x) => match b {
            Err(e) => Err(e),
            Ok(y) => Ok(x + y),
        },
    }
}

/// The blocks of an object (its own first, then its entries' in key order).
pub open spec fn collect_object(o: Seq<(Seq<char>, TreeModel)>, is_root: bool, path: Seq<Seq<char>>, p: Seq<char>) -> Result<Seq<Collected>, SpecErrorKind>
    decreases o, o.len() + 1,
{
    concat_results(
        if is_root { Ok(Seq::empty()) } else { block_of(o, path, p) },
        collect_entries(o, 0, is_root, path, p),
    )
}

/// The blocks of the entries `o[i..]`.
pub open spec fn collect_entries(o: Seq<(Seq<char>, TreeModel)>, i: int, is_root: bool, path: Seq<Seq<char>>, p: Seq<char>) -> Result<Seq<Collected>, SpecErrorKind>
    decreases o, o.len() - i,
{
    if i < 0 || i >= o.len() {
        Ok(Seq::empty())
    } else {
        let key = o[i].0;
        if is_root && is_reserved(key, p) {
            Err(SpecErrorKind::InvalidTree(message("root object cannot contain meta field `", key, "`")))
        } else if !is_root && is_reserved(key, p) {
            collect_entries(o, i + 1, is_root, path, p)
        } else {
            concat_results(collect_value(o[i].1, path.push(key), p), collect_entries(o, i + 1, is_root, path, p))
        }
    }
}

/// The blocks below a value under the path `path`.
pub open spec fn collect_value(v: TreeModel, path: Seq<Seq<char>>, p: Seq<char>) -> Result<Seq<Collected>, SpecErrorKind>
    decreases v, 0int,
{
    match v {
        TreeModel::Object(o) => collect_object(o, false, path, p),
        TreeModel::Array(items) => collect_items(items, 0, path, p),
        _ => Err(SpecErrorKind::InvalidTree(message("path `", dots(path), "` must resolve to an object or array"))),
    }
}

/// The blocks of the array elements `items[j..]`.
pub open spec fn collect_items(items: Seq<TreeModel>, j: int, path: Seq<Seq<char>>, p: Seq<char>) -> Result<Seq<Collected>, SpecErrorKind>
    decreases items, items.len() - j,
{
    if j < 0 || j >= items.len() {
        Ok(Seq::empty())
    } else {
        let here = match items[j] {
            TreeModel::Object(o) => collect_object(o, false, path, p),
            TreeModel::Array(_) => collect_value(items[j], path, p),
            _ => Err(SpecErrorKind::InvalidTree(message("array at `", dots(path), "` must contain objects"))),
        };
        concat_results(here, collect_items(items, j + 1, path, p))
    }
}

/// `a` comes before `b`: both with orders by order then position, those with
/// an order before those without, those without by position.
pub open spec fn before(a: (Collected, int), b: (Collected, int)) -> bool {
    match (a.0.1, b.0.1) {
        (Some(x), Some(y)) => x < y || (x == y && a.1 < b.1),
        (Some(_), None) => true,
        (None, Some(_)) => false,
        (None, None) => a.1 < b.1,
    }
}

/// `x` put before the first element that it comes before.
pub open spec fn insert_sorted(s: Seq<(Collected, int)>, x: (Collected, int)) -> Seq<(Collected, int)>
    decreases s.len(),
{
    if s.len() == 0 {
        seq![x]
    } else if before(x, s[0]) {
        seq![x] + s
    } else {
        seq![s[0]] + insert_sorted(s.drop_first(), x)
    }
}

/// The elements in `before` order (insertion sort).
pub open spec fn sort_items(s: Seq<(Collected, int)>) -> Seq<(Collected, int)>
    decreases s.len(),
{
    if s.len() == 0 {
        s
    } else {
        insert_sorted(sort_items(s.drop_last()), s.last())
    }
}

/// Each collected block with its position.
pub open spec fn tagged(c: Seq<Collected>) -> Seq<(Collected, int)> {
    Seq::new(c.len(), |i: int| (c[i], i))
}

/// The block sequence that a path tree describes: its blocks ordered by their
/// order fields, ties and blocks without one by where they were found.
pub open spec fn tree_blocks(t: TreeModel, p: Seq<char>) -> Result<Seq<SpecBlock>, SpecErrorKind> {
    match t {
        TreeModel::Object(o) => match collect_object(o, true, Seq::empty(), p) {
            Ok(c) => Ok(sort_items(tagged(c)).map_values(|x: (Collected, int)| x.0.0)),
            Err(e) => Err(e),
        },
        _ => Err(SpecErrorKind::InvalidTree("root must be an object"@)),
    }
}

/// A block read back from a tree, with its order when it has one.
pub struct CollectedBlock {
    pub block: PmlBlock,
    pub order: Option<i64>,
}

impl View for CollectedBlock {
    type V = Collected;

    open spec fn view(&self) -> Collected {
        (self.block@, match self.order {
            Some(n) => Some(n as int),
            None => None,
        })
    }
}

pub open spec fn collected_views(c: Seq<CollectedBlock>) -> Seq<Collected> {
    c.map_values(|x: CollectedBlock| x@)
}

/// The meta fields read from an object, in executable form.
pub struct ExtractedMeta {
    pub ty: Option<Vec<char>>,
    pub content: Option<Vec<char>>,
    pub tag: Option<Vec<char>>,
    pub order: Option<i64>,
}

pub open spec fn opt_view(v: Option<Vec<char>>) -> Option<Seq<char>> {
    match v {
        Some(x) => Some(x@),
        None => None,
    }
}

impl View for ExtractedMeta {
    type V = SpecMeta;

    open spec fn view(&self) -> SpecMeta {
        SpecMeta {
            ty: opt_view(self.ty),
            content: opt_view(self.content),
            tag: opt_view(self.tag),
            order: match self.order {
                Some(n) => Some(n as int),
                None => None,
            },
        }
    }
}

fn read_meta_string(o: &PmlObject, key: &Vec<char>) -> (r: Result<Option<Vec<char>>, PmlError>)
    ensures
        match meta_string(o.model(), key@) {
            Ok(v) => r matches Ok(x) && opt_view(x) == v,
            Err(k) => r matches Err(e) && e@ == tree_error(k),
        },
{
    match o.find(key) {
        None => Ok(None),
        Some(i) => match o.value_at(i) {
            PmlTreeValue::String(s) => Ok(Some(str_to_chars(s.as_str()))),
            other => {
                assert(!(other.model() is String));
                Err(PmlError { line: 0, kind: PmlErrorKind::InvalidTree(message_exec("meta field `", key, "` must be a string")) })
            },
        },
    }
}

fn read_meta_order(o: &PmlObject, key: &Vec<char>) -> (r: Result<Option<i64>, PmlError>)
    ensures
        match meta_order(o.model(), key@) {
            Ok(v) => r matches Ok(x) && v == match x {
                Some(n) => Some(n as int),
                None => None::<int>,
            },
            Err(k) => r matches Err(e) && e@ == tree_error(k),
        },
{
    match o.find(key) {
        None => Ok(None),
        Some(i) => match o.value_at(i) {
            PmlTreeValue::Integer(n) => {
                if *n < 0 {
                    Err(PmlError { line: 0, kind: PmlErrorKind::InvalidTree(message_exec("meta field `", key, "` must be a non-negative integer")) })
                } else {
                    Ok(Some(*n))
                }
            },
            other => {
                assert(!(other.model() is Integer));
                Err(PmlError { line: 0, kind: PmlErrorKind::InvalidTree(message_exec("meta field `", key, "` must be an integer")) })
            },
        },
    }
}

fn extract_meta_exec(o: &PmlObject, keys: &MetaKeys, p: Ghost<Seq<char>>) -> (r: Result<ExtractedMeta, PmlError>)
    requires
        keys.for_prefix(p@),
    ensures
        match extract_meta(o.model(), p@) {
            Ok(m) => r matches Ok(x) && x@ == m,
            Err(k) => r matches Err(e) && e@ == tree_error(k),
        },
{
    let ty = read_meta_string(o, &keys.ty)?;
    let content = read_meta_string(o, &keys.content)?;
    let tag = read_meta_string(o, &keys.tag)?;
    let order = read_meta_order(o, &keys.order)?;
    Ok(ExtractedMeta { ty, content, tag, order })
}

/// `true` when the meta fields hold something.
fn meta_has_any(m: &ExtractedMeta) -> (r: bool)
    ensures
        r == m@.has_any(),
{
    m.ty.is_some() || m.content.is_some() || m.tag.is_some() || m.order.is_some()
}

/// The block that the object's meta fields describe, if any.
fn block_of_exec(o: &PmlObject, path: &Vec<Vec<char>>, keys: &MetaKeys, p: Ghost<Seq<char>>) -> (r: Result<Option<CollectedBlock>, PmlError>)
    requires
        keys.for_prefix(p@),
    ensures
        match block_of(o.model(), views(path@), p@) {
            Ok(c) => r matches Ok(x) && c == match x {
                Some(b) => seq![b@],
                None => Seq::<Collected>::empty(),
            },
            Err(k) => r matches Err(e) && e@ == tree_error(k),
        },
{
    let meta = extract_meta_exec(o, keys, p)?;
    if !meta_has_any(&meta) {
        return Ok(None);
    }
    let mut name = join_chars(path, 0, path.len(), '.');
    assert(views(path@).subrange(0, path@.len() as int) =~= views(path@));
    match &meta.tag {
        Some(t) => {
            let ghost base = name@;
            name.push('#');
            let mut j: usize = 0;
            while j < t.len()
                invariant
                    j <= t.len(),
                    name@ == base + seq!['#'] + t@.take(j as int),
                decreases t.len() - j,
            {
                name.push(t[j]);
                j = j + 1;
                assert(name@ =~= base + seq!['#'] + t@.take(j as int));
            }
            assert(t@.take(j as int) =~= t@);
        },
        None => {},
    }
    if !is_valid_name(&name) {
        return Err(PmlError { line: 0, kind: PmlErrorKind::InvalidName(chars_to_string(&name)) });
    }
    let ty_src = match &meta.ty {
        Some(t) => t.clone(),
        None => text_type_exec(),
    };
    assert(ty_src@.subrange(0, ty_src@.len() as int) =~= ty_src@);
    let ty = match normalize_type_range(&ty_src, 0, ty_src.len()) {
        Ok(t) => t,
        Err(kind) => {
            return Err(PmlError { line: 0, kind });
        },
    };
    let content_src = match &meta.content {
        Some(c) => c.clone(),
        None => Vec::new(),
    };
    assert(meta.content is None ==> content_src@ =~= Seq::<char>::empty());
    let content = normalize_newlines(&content_src);
    let block = PmlBlock {
        name: chars_to_string(&name),
        ty: chars_to_string(&ty),
        content: chars_to_string(&content),
        paired: false,
    };
    Ok(Some(CollectedBlock { block, order: meta.order }))
}

proof fn lemma_concat_assoc(acc: Seq<Collected>, x: Seq<Collected>, rest: Result<Seq<Collected>, SpecErrorKind>)
    ensures
        concat_results(Ok(acc), concat_results(Ok(x), rest)) == concat_results(Ok(acc + x), rest),
{
    match rest {
        Ok(y) => assert(acc + (x + y) =~= (acc + x) + y),
        Err(_) => {},
    }
}

proof fn lemma_concat_empty(r: Result<Seq<Collected>, SpecErrorKind>)
    ensures
        concat_results(Ok(Seq::empty()), r) == r,
{
    match r {
        Ok(y) => assert(Seq::<Collected>::empty() + y =~= y),
        Err(_) => {},
    }
}

/// Appends the blocks of an object (its own, then its entries') to `out`.
fn collect_from_object(o: &PmlObject, is_root: bool, path: &mut Vec<Vec<char>>, out: &mut Vec<CollectedBlock>, keys: &MetaKeys, p: Ghost<Seq<char>>) -> (r: Result<(), PmlError>)
    requires
        keys.for_prefix(p@),
    ensures
        match collect_object(o.model(), is_root, views(old(path)@), p@) {
            Ok(c) => r is Ok && collected_views(final(out)@) == collected_views(old(out)@) + c && final(path)@ == old(path)@,
            Err(k) => r matches Err(e) && e@ == tree_error(k),
        },
        r is Ok ==> visited_sorted(TreeModel::Object(o.model()), p@),
    decreases o, 1int,
{
    let ghost om = o.model();
    let ghost path0 = path@;
    let ghost pv = views(path@);
    let ghost start = collected_views(out@);
    let ghost mut own: Seq<Collected> = Seq::empty();
    if !is_root {
        match block_of_exec(o, path, keys, p)? {
            Some(b) => {
                out.push(b);
                proof {
                    own = seq![b@];
                }
                assert(collected_views(out@) =~= start + own);
            },
            None => {
                assert(collected_views(out@) =~= start + own);
            },
        }
    } else {
        assert(collected_views(out@) =~= start + own);
    }
    assert((if is_root { Ok(Seq::empty()) } else { block_of(om, pv, p@) }) == Ok::<Seq<Collected>, SpecErrorKind>(own));
    let ghost base = collected_views(out@);
    let ghost mut acc: Seq<Collected> = Seq::empty();
    proof {
        lemma_concat_empty(collect_entries(om, 0, is_root, pv, p@));
    }
    let n = o.len();
    let mut i: usize = 0;
    while i < n
        invariant
            i <= n,
            n == o.model().len(),
            om == o.model(),
            sorted_keys(om),
            forall|j: int| 0 <= j < i && !is_reserved(om[j].0, p@) ==> visited_sorted(#[trigger] om[j].1, p@),
            keys.for_prefix(p@),
            path@ == path0,
            path0 == old(path)@,
            start == collected_views(old(out)@),
            pv == views(path0),
            collected_views(out@) == base + acc,
            base == start + own,
            collect_entries(om, 0, is_root, pv, p@) == concat_results(Ok(acc), collect_entries(om, i as int, is_root, pv, p@)),
            collect_object(om, is_root, pv, p@) == concat_results(Ok(own), collect_entries(om, 0, is_root, pv, p@)),
        decreases n - i,
    {
        let key = str_to_chars(o.key_at(i).as_str());
        assert(om[i as int].0 == key@);
        if is_reserved_child_key(&key, keys, p) {
            if is_root {
                assert(collect_entries(om, i as int, is_root, pv, p@) == Err::<Seq<Collected>, SpecErrorKind>(SpecErrorKind::InvalidTree(message("root object cannot contain meta field `", key@, "`"))));
                return Err(PmlError { line: 0, kind: PmlErrorKind::InvalidTree(message_exec("root object cannot contain meta field `", &key, "`")) });
            }
            assert(collect_entries(om, i as int, is_root, pv, p@) == collect_entries(om, i + 1, is_root, pv, p@));
            i = i + 1;
        } else {
            assert(collect_entries(om, i as int, is_root, pv, p@) == concat_results(collect_value(om[i as int].1, pv.push(key@), p@), collect_entries(om, i + 1, is_root, pv, p@)));
            let ghost before = collected_views(out@);
            path.push(key);
            assert(views(path@) =~= pv.push(key@));
            let res = collect_from_value(o.value_at(i), path, out, keys, p);
            match res {
                Err(e) => {
                    return Err(e);
                },
                Ok(()) => {},
            }
            let _ = path.pop();
            assert(path@ =~= path0);
            proof {
                let cv = collect_value(om[i as int].1, pv.push(key@), p@);
                assert(cv is Ok);
                let x = cv->Ok_0;
                lemma_concat_assoc(acc, x, collect_entries(om, i + 1, is_root, pv, p@));
                acc = acc + x;
                assert(collected_views(out@) =~= base + acc);
            }
            i = i + 1;
        }
    }
    proof {
        assert(acc + Seq::<Collected>::empty() =~= acc);
        assert(collected_views(out@) =~= start + (own + acc));
        assert forall|j: int| #![trigger om[j]] 0 <= j < om.len() && !is_reserved(om[j].0, p@) implies visited_sorted(om[j].1, p@) by {
            assert(visited_sorted(om[j].1, p@));
        }
    }
    Ok(())
}

/// Appends the blocks below a value to `out`.
fn collect_from_value(v: &PmlTreeValue, path: &mut Vec<Vec<char>>, out: &mut Vec<CollectedBlock>, keys: &MetaKeys, p: Ghost<Seq<char>>) -> (r: Result<(), PmlError>)
    requires
        keys.for_prefix(p@),
    ensures
        match collect_value(v.model(), views(old(path)@), p@) {
            Ok(c) => r is Ok && collected_views(final(out)@) == collected_views(old(out)@) + c && final(path)@ == old(path)@,
            Err(k) => r matches Err(e) && e@ == tree_error(k),
        },
        r is Ok ==> visited_sorted(v.model(), p@),
    decreases v, 0int,
{
    let ghost pv = views(path@);
    match v {
        PmlTreeValue::Object(o) => {
            proof {
                lemma_object_model(*o);
            }
            collect_from_object(o, false, path, out, keys, p)
        },
        PmlTreeValue::Array(items) => {
            proof {
                lemma_array_model(*items);
            }
            let ghost im = items@.map_values(|x: PmlTreeValue| x.model());
            let ghost path0 = path@;
            let ghost base = collected_views(out@);
            let ghost mut acc: Seq<Collected> = Seq::empty();
            proof {
                lemma_concat_empty(collect_items(im, 0, pv, p@));
            }
            let mut j: usize = 0;
            while j < items.len()
                invariant
                    j <= items.len(),
                    im == items@.map_values(|x: PmlTreeValue| x.model()),
                    *v == PmlTreeValue::Array(*items),
                    v.model() == TreeModel::Array(im),
                    keys.for_prefix(p@),
                    path@ == path0,
                    path0 == old(path)@,
                    base == collected_views(old(out)@),
                    pv == views(path0),
                    collected_views(out@) == base + acc,
                    collect_items(im, 0, pv, p@) == concat_results(Ok(acc), collect_items(im, j as int, pv, p@)),
                    forall|q: int| 0 <= q < j ==> visited_sorted(#[trigger] im[q], p@),
                decreases items.len() - j,
            {
                let ghost before = collected_views(out@);
                assert(im[j as int] == items@[j as int].model());
                assert(collect_items(im, j as int, pv, p@) == concat_results(
                    match im[j as int] {
                        TreeModel::Object(o) => collect_object(o, false, pv, p@),
                        TreeModel::Array(_) => collect_value(im[j as int], pv, p@),
                        _ => Err(SpecErrorKind::InvalidTree(message("array at `", dots(pv), "` must contain objects"))),
                    },
                    collect_items(im, j + 1, pv, p@),
                ));
                let res = match &items[j] {
                    PmlTreeValue::Object(o) => {
                        proof {
                            lemma_object_model(*o);
                        }
                        collect_from_object(o, false, path, out, keys, p)
                    },
                    PmlTreeValue::Array(_) => collect_from_value(&items[j], path, out, keys, p),
                    other => {
                        assert(!(im[j as int] is Object) && !(im[j as int] is Array));
                        let name = join_chars(path, 0, path.len(), '.');
                        assert(views(path@).subrange(0, path@.len() as int) =~= pv);
                        Err(PmlError { line: 0, kind: PmlErrorKind::InvalidTree(message_exec("array at `", &name, "` must contain objects")) })
                    },
                };
                match res {
                    Err(e) => {
                        return Err(e);
                    },
                    Ok(()) => {},
                }
                proof {
                    let cv = match im[j as int] {
                        TreeModel::Object(o) => collect_object(o, false, pv, p@),
                        TreeModel::Array(_) => collect_value(im[j as int], pv, p@),
                        _ => Err(SpecErrorKind::InvalidTree(message("array at `", dots(pv), "` must contain objects"))),
                    };
                    assert(cv is Ok);
                    let x = cv->Ok_0;
                    lemma_concat_assoc(acc, x, collect_items(im, j + 1, pv, p@));
                    acc = acc + x;
                    assert(collected_views(out@) =~= base + acc);
                }
                j = j + 1;
            }
            proof {
                assert(acc + Seq::<Collected>::empty() =~= acc);
            }
            Ok(())
        },
        _ => {
            let name = join_chars(path, 0, path.len(), '.');
            assert(views(path@).subrange(0, path@.len() as int) =~= pv);
            Err(PmlError { line: 0, kind: PmlErrorKind::InvalidTree(message_exec("path `", &name, "` must resolve to an object or array")) })
        },
    }
}

/// Whether block `a` (found at position `ai`) comes before block `b` (at `bi`).
fn before_exec(a: &CollectedBlock, ai: usize, b: &CollectedBlock, bi: usize) -> (r: bool)
    ensures
        r == before((a@, ai as int), (b@, bi as int)),
{
    match (a.order, b.order) {
        (Some(x), Some(y)) => x < y || (x == y && ai < bi),
        (Some(_), None) => true,
        (None, Some(_)) => false,
        (None, None) => ai < bi,
    }
}

pub open spec fn tagged_views(s: Seq<(CollectedBlock, usize)>) -> Seq<(Collected, int)> {
    s.map_values(|x: (CollectedBlock, usize)| (x.0@, x.1 as int))
}

proof fn lemma_insert_sorted_skip(s: Seq<(Collected, int)>, q: int, x: (Collected, int))
    requires
        0 <= q < s.len(),
        !before(x, s[q]),
    ensures
        s.take(q) + insert_sorted(s.skip(q), x) == s.take(q + 1) + insert_sorted(s.skip(q + 1), x),
{
    assert(s.skip(q).drop_first() =~= s.skip(q + 1));
    assert(s.take(q) + insert_sorted(s.skip(q), x) =~= s.take(q + 1) + insert_sorted(s.skip(q + 1), x));
}

/// The blocks in `before` order.
fn sort_collected(c: Vec<CollectedBlock>) -> (r: Vec<PmlBlock>)
    ensures
        block_views(r@) == sort_items(tagged(collected_views(c@))).map_values(|x: (Collected, int)| x.0.0),
{
    let ghost cv = collected_views(c@);
    let ghost tg = tagged(cv);
    let n = c.len();
    let mut rest = c;
    let mut sorted: Vec<(CollectedBlock, usize)> = Vec::new();
    let mut k: usize = 0;
    assert(tg.take(0) =~= Seq::<(Collected, int)>::empty());
    assert(tagged_views(sorted@) =~= sort_items(tg.take(0)));
    assert(collected_views(rest@) =~= cv.skip(0));
    while k < n
        invariant
            k <= n,
            n == cv.len(),
            tg == tagged(cv),
            collected_views(rest@) == cv.skip(k as int),
            tagged_views(sorted@) == sort_items(tg.take(k as int)),
        decreases n - k,
    {
        let ghost s = tagged_views(sorted@);
        let ghost r0 = rest@;
        assert(collected_views(r0).len() == r0.len());
        assert(collected_views(r0)[0] == cv[k as int]);
        let item = rest.remove(0);
        let ghost x = (item@, k as int);
        assert(item == r0[0]);
        assert(item@ == cv[k as int]);
        assert(collected_views(rest@) =~= collected_views(r0).drop_first());
        assert(tg.take(k + 1).drop_last() =~= tg.take(k as int));
        assert(tg.take(k + 1).last() == x);
        assert(collected_views(rest@) =~= cv.skip(k + 1));
        let mut q: usize = 0;
        assert(s.skip(0) =~= s);
        assert(s.take(0) + insert_sorted(s.skip(0), x) =~= insert_sorted(s, x));
        while q < sorted.len() && !before_exec(&item, k, &sorted[q].0, sorted[q].1)
            invariant
                q <= sorted.len(),
                s == tagged_views(sorted@),
                x == (item@, k as int),
                insert_sorted(s, x) == s.take(q as int) + insert_sorted(s.skip(q as int), x),
            decreases sorted.len() - q,
        {
            proof {
                assert(s[q as int] == (sorted@[q as int].0@, sorted@[q as int].1 as int));
                lemma_insert_sorted_skip(s, q as int, x);
            }
            q = q + 1;
        }
        proof {
            if q < sorted.len() {
                assert(s[q as int] == (sorted@[q as int].0@, sorted@[q as int].1 as int));
                assert(s.skip(q as int)[0] == s[q as int]);
            } else {
                assert(s.skip(q as int) =~= Seq::<(Collected, int)>::empty());
            }
        }
        sorted.insert(q, (item, k));
        assert(tagged_views(sorted@) =~= s.take(q as int) + insert_sorted(s.skip(q as int), x));
        k = k + 1;
    }
    assert(tg.take(n as int) =~= tg);
    let ghost sv = tagged_views(sorted@);
    let mut out: Vec<PmlBlock> = Vec::new();
    let total = sorted.len();
    let mut j: usize = 0;
    while j < total
        invariant
            j <= total,
            total == sv.len(),
            tagged_views(sorted@) == sv.skip(j as int),
            block_views(out@) == sv.take(j as int).map_values(|x: (Collected, int)| x.0.0),
        decreases total - j,
    {
        let ghost before_out = block_views(out@);
        let ghost s0 = sorted@;
        assert(tagged_views(s0).len() == s0.len());
        assert(tagged_views(s0)[0] == sv[j as int]);
        let e = sorted.remove(0);
        assert(e == s0[0]);
        assert(e.0@ == sv[j as int].0);
        assert(tagged_views(sorted@) =~= tagged_views(s0).drop_first());
        assert(e.0.block@ == sv[j as int].0.0);
        let ghost bv = e.0.block@;
        out.push(e.0.block);
        assert(block_views(out@) =~= before_out.push(bv));
        assert(sv.take(j + 1).map_values(|x: (Collected, int)| x.0.0) =~= sv.take(j as int).map_values(|x: (Collected, int)| x.0.0).push(bv));
        assert(tagged_views(sorted@) =~= sv.skip(j + 1));
        assert(block_views(out@) =~= sv.take(j + 1).map_values(|x: (Collected, int)| x.0.0));
        j = j + 1;
    }
    assert(sv.take(j as int) =~= sv);
    out
}

/// The block sequence that a path tree describes.
pub fn tree_to_blocks(tree: &PmlTreeValue, options: &PmlTreeOptions) -> (r: Result<Vec<PmlBlock>, PmlError>)
    ensures
        match tree_blocks(tree.model(), options.meta_prefix@) {
            Ok(bs) => r matches Ok(v) && block_views(v@) == bs,
            Err(k) => r matches Err(e) && e@ == tree_error(k),
        },
        r is Ok ==> visited_sorted(tree.model(), options.meta_prefix@),
{
    let root = match tree {
        PmlTreeValue::Object(o) => o,
        _ => {
            return Err(PmlError { line: 0, kind: PmlErrorKind::InvalidTree(literal("root must be an object")) });
        },
    };
    proof {
        lemma_object_model(*root);
    }
    let p = str_to_chars(options.meta_prefix.as_str());
    let keys = meta_keys(&p);
    let mut collected: Vec<CollectedBlock> = Vec::new();
    let mut path: Vec<Vec<char>> = Vec::new();
    assert(views(path@) =~= Seq::<Seq<char>>::empty());
    collect_from_object(root, true, &mut path, &mut collected, &keys, Ghost(p@))?;
    assert(collected_views(collected@) =~= Seq::<Collected>::empty() + collect_object(root.model(), true, Seq::empty(), p@)->Ok_0);
    Ok(sort_collected(collected))
}

} // verus!
