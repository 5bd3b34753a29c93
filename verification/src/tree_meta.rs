use vstd::prelude::*;
use crate::chars::{chars_to_string, str_to_chars};
use crate::model::{PmlBlock, PmlError, PmlErrorKind, SpecBlock, SpecError, SpecErrorKind};
use crate::parse::chars_eq;
use crate::tree_model::{obj_get, obj_insert, PmlObject, PmlTreeValue, TreeModel};

verus! {

/// How the path tree model names its meta fields.
#[derive(Debug, Clone, PartialEq, Eq)]
pub struct PmlTreeOptions {
    pub meta_prefix: String,
}

impl Default for PmlTreeOptions {
    fn default() -> (o: Self)
        ensures
            o.meta_prefix@ == seq!['$'],
    {
        let mut s = String::new();
        crate::chars::string_push(&mut s, '$');
        assert(s@ =~= seq!['$']);
        PmlTreeOptions { meta_prefix: s }
    }
}

pub open spec fn type_field() -> Seq<char> {
    seq!['t', 'y', 'p', 'e']
}

pub open spec fn content_field() -> Seq<char> {
    seq!['c', 'o', 'n', 't', 'e', 'n', 't']
}

pub open spec fn tag_field() -> Seq<char> {
    seq!['t', 'a', 'g']
}

pub open spec fn order_field() -> Seq<char> {
    seq!['o', 'r', 'd', 'e', 'r']
}

/// The key of a meta field: the prefix, then the field's name.
pub open spec fn meta_key(p: Seq<char>, name: Seq<char>) -> Seq<char> {
    p + name
}

/// `key` is the key of one of the four meta fields.
pub open spec fn is_reserved(key: Seq<char>, p: Seq<char>) -> bool {
    key == meta_key(p, type_field()) || key == meta_key(p, content_field()) || key == meta_key(p, tag_field())
        || key == meta_key(p, order_field())
}

/// The object holds at least one meta field.
pub open spec fn has_meta(o: Seq<(Seq<char>, TreeModel)>, p: Seq<char>) -> bool {
    obj_get(o, meta_key(p, type_field())) is Some || obj_get(o, meta_key(p, content_field())) is Some
        || obj_get(o, meta_key(p, tag_field())) is Some || obj_get(o, meta_key(p, order_field())) is Some
}

/// The text of an error message: `a`, then `mid`, then `b`.
pub open spec fn message(a: &str, mid: Seq<char>, b: &str) -> Seq<char> {
    a@ + mid + b@
}

/// Sets the meta field `key` to `v`: fine when it already holds `v`, an error
/// when it holds something else.
pub open spec fn insert_meta(o: Seq<(Seq<char>, TreeModel)>, key: Seq<char>, v: TreeModel, p: Seq<char>) -> Result<Seq<(Seq<char>, TreeModel)>, SpecErrorKind> {
    match obj_get(o, key) {
        Some(existing) => if existing != v {
            Err(SpecErrorKind::InvalidTree(message("duplicate meta field `", key, "`")))
        } else {
            Ok(o)
        },
        None => Ok(obj_insert(o, key, v)),
    }
}

/// Chains two steps that may fail.
pub open spec fn and_then_meta(r: Result<Seq<(Seq<char>, TreeModel)>, SpecErrorKind>, key: Seq<char>, v: TreeModel, p: Seq<char>) -> Result<Seq<(Seq<char>, TreeModel)>, SpecErrorKind> {
    match r {
        Ok(o) => insert_meta(o, key, v, p),
        Err(e) => Err(e),
    }
}

/// Writes a block's type, content, order and (when there is one) tag into `o`.
pub open spec fn apply_meta(o: Seq<(Seq<char>, TreeModel)>, b: SpecBlock, order: int, tag: Option<Seq<char>>, p: Seq<char>) -> Result<Seq<(Seq<char>, TreeModel)>, SpecErrorKind> {
    let r1 = insert_meta(o, meta_key(p, type_field()), TreeModel::String(b.ty), p);
    let r2 = and_then_meta(r1, meta_key(p, content_field()), TreeModel::String(b.content), p);
    let r3 = and_then_meta(r2, meta_key(p, order_field()), TreeModel::Integer(order), p);
    match tag {
        Some(t) => and_then_meta(r3, meta_key(p, tag_field()), TreeModel::String(t), p),
        None => r3,
    }
}

/// The characters of a string slice followed by `mid` and another slice.
pub fn message_exec(a: &str, mid: &Vec<char>, b: &str) -> (s: String)
    ensures
        s@ == message(a, mid@, b),
{
    let mut v = str_to_chars(a);
    let bv = str_to_chars(b);
    let mut i: usize = 0;
    let ghost base = v@;
    while i < mid.len()
        invariant
            i <= mid.len(),
            v@ == base + mid@.take(i as int),
        decreases mid.len() - i,
    {
        v.push(mid[i]);
        i = i + 1;
        assert(v@ =~= base + mid@.take(i as int));
    }
    let mut j: usize = 0;
    let ghost base2 = v@;
    while j < bv.len()
        invariant
            j <= bv.len(),
            v@ == base2 + bv@.take(j as int),
        decreases bv.len() - j,
    {
        v.push(bv[j]);
        j = j + 1;
        assert(v@ =~= base2 + bv@.take(j as int));
    }
    assert(mid@.take(i as int) =~= mid@);
    assert(bv@.take(j as int) =~= bv@);
    assert(v@ =~= a@ + mid@ + b@);
    chars_to_string(&v)
}

/// `p` followed by `name`.
pub fn meta_key_exec(p: &Vec<char>, name: &str) -> (k: Vec<char>)
    ensures
        k@ == p@ + name@,
{
    let n = str_to_chars(name);
    let mut k = p.clone();
    assert(k@ == p@);
    let mut i: usize = 0;
    while i < n.len()
        invariant
            i <= n.len(),
            k@ == p@ + n@.take(i as int),
        decreases n.len() - i,
    {
        k.push(n[i]);
        i = i + 1;
        assert(k@ =~= p@ + n@.take(i as int));
    }
    assert(n@.take(i as int) =~= n@);
    k
}

/// The four meta keys for the prefix `p`.
pub struct MetaKeys {
    pub ty: Vec<char>,
    pub content: Vec<char>,
    pub tag: Vec<char>,
    pub order: Vec<char>,
}

impl MetaKeys {
    pub open spec fn for_prefix(&self, p: Seq<char>) -> bool {
        &&& self.ty@ == meta_key(p, type_field())
        &&& self.content@ == meta_key(p, content_field())
        &&& self.tag@ == meta_key(p, tag_field())
        &&& self.order@ == meta_key(p, order_field())
    }
}

/// The meta keys for the prefix `p`.
pub fn meta_keys(p: &Vec<char>) -> (k: MetaKeys)
    ensures
        k.for_prefix(p@),
{
    proof {
        reveal_strlit("type");
        reveal_strlit("content");
        reveal_strlit("tag");
        reveal_strlit("order");
    }
    let ty = meta_key_exec(p, "type");
    let content = meta_key_exec(p, "content");
    let tag = meta_key_exec(p, "tag");
    let order = meta_key_exec(p, "order");
    assert(ty@ =~= meta_key(p@, type_field()));
    assert(content@ =~= meta_key(p@, content_field()));
    assert(tag@ =~= meta_key(p@, tag_field()));
    assert(order@ =~= meta_key(p@, order_field()));
    MetaKeys { ty, content, tag, order }
}

/// Whether `key` is one of the meta keys.
pub fn is_reserved_child_key(key: &Vec<char>, keys: &MetaKeys, p: Ghost<Seq<char>>) -> (r: bool)
    requires
        keys.for_prefix(p@),
    ensures
        r == is_reserved(key@, p@),
{
    chars_eq(key, &keys.ty) || chars_eq(key, &keys.content) || chars_eq(key, &keys.tag) || chars_eq(key, &keys.order)
}

/// Whether the object holds a meta field.
pub fn object_has_meta(o: &PmlObject, keys: &MetaKeys, p: Ghost<Seq<char>>) -> (r: bool)
    requires
        keys.for_prefix(p@),
    ensures
        r == has_meta(o.model(), p@),
{
    o.find(&keys.ty).is_some() || o.find(&keys.content).is_some() || o.find(&keys.tag).is_some()
        || o.find(&keys.order).is_some()
}

/// Whether `a` equals the string or integer `b`.
fn scalar_eq(a: &PmlTreeValue, b: &PmlTreeValue) -> (r: bool)
    requires
        b is String || b is Integer,
    ensures
        r == (a.model() == b.model()),
{
    match a {
        PmlTreeValue::String(x) => match b {
            PmlTreeValue::String(y) => {
                let e = x.eq(y);
                assert(e == (x@ == y@));
                e
            },
            _ => false,
        },
        PmlTreeValue::Integer(x) => match b {
            PmlTreeValue::Integer(y) => *x == *y,
            _ => false,
        },
        PmlTreeValue::Object(_) => {
            assert(a.model() is Object);
            false
        },
        PmlTreeValue::Array(_) => {
            assert(a.model() is Array);
            false
        },
        _ => false,
    }
}

/// An error of the path tree model (it has no line).
pub open spec fn tree_error(k: SpecErrorKind) -> SpecError {
    SpecError { line: 0, kind: k }
}

/// Sets the meta field `key` of `o` to `value`.
pub fn insert_meta_field(o: &mut PmlObject, key: &Vec<char>, value: PmlTreeValue, keys: &MetaKeys, p: &Vec<char>) -> (r: Result<(), PmlError>)
    requires
        keys.for_prefix(p@),
        value is String || value is Integer,
    ensures
        match insert_meta(old(o).model(), key@, value.model(), p@) {
            Ok(m) => r is Ok && final(o).model() == m,
            Err(k) => r matches Err(e) && e@ == tree_error(k),
        },
{
    match o.find(key) {
        Some(i) => {
            if !scalar_eq(o.value_at(i), &value) {
                return Err(PmlError {
                    line: 0,
                    kind: PmlErrorKind::InvalidTree(message_exec("duplicate meta field `", key, "`")),
                });
            }
            return Ok(());
        },
        None => {},
    }
    o.insert(chars_to_string(key), value);
    Ok(())
}

/// Writes the block's type, content, order and tag into `o`.
pub fn apply_block_meta(o: &mut PmlObject, block: &PmlBlock, order: i64, tag: &Option<Vec<char>>, keys: &MetaKeys, p: &Vec<char>) -> (r: Result<(), PmlError>)
    requires
        keys.for_prefix(p@),
    ensures
        match apply_meta(old(o).model(), block@, order as int, opt_chars(*tag), p@) {
            Ok(m) => r is Ok && final(o).model() == m,
            Err(k) => r matches Err(e) && e@ == tree_error(k),
        },
{
    let ghost p0 = p@;
    let ghost b = block@;
    let ghost r1 = insert_meta(o.model(), meta_key(p0, type_field()), TreeModel::String(b.ty), p0);
    insert_meta_field(o, &keys.ty, PmlTreeValue::String(block.ty.clone()), keys, p)?;
    let ghost r2 = and_then_meta(r1, meta_key(p0, content_field()), TreeModel::String(b.content), p0);
    insert_meta_field(o, &keys.content, PmlTreeValue::String(block.content.clone()), keys, p)?;
    let ghost r3 = and_then_meta(r2, meta_key(p0, order_field()), TreeModel::Integer(order as int), p0);
    insert_meta_field(o, &keys.order, PmlTreeValue::Integer(order), keys, p)?;
    match tag {
        Some(t) => {
            insert_meta_field(o, &keys.tag, PmlTreeValue::String(chars_to_string(t)), keys, p)?;
        },
        None => {},
    }
    Ok(())
}

/// The view of an optional character vector.
pub open spec fn opt_chars(t: Option<Vec<char>>) -> Option<Seq<char>> {
    match t {
        Some(v) => Some(v@),
        None => None,
    }
}

} // verus!
