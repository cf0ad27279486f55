//! The tagged value tree: one JSON value, its mathematical model, and the
//! typed accessors over it.
//!
//! A number is carried as the bit pattern of a 64-bit binary
//! floating-point value (see `num`). An object is an insertion-ordered
//! sequence of key/value pairs whose keys are unique; with that backing,
//! iteration order over an object is observable and deterministic.

use vstd::prelude::*;

verus! {

broadcast use vstd::std_specs::vec::group_vec_axioms, vstd::seq::group_seq_axioms;

/// The mathematical model of a JSON value.
pub enum SpecValue {
    Number(u64),
    Boolean(bool),
    String(Seq<char>),
    Null,
    Array(Seq<SpecValue>),
    Object(Seq<(Seq<char>, SpecValue)>),
}

/// One JSON value: a closed tagged union with six variants.
#[derive(Debug, PartialEq)]
pub enum JsonValue {
    /// A number, as the bit pattern of a 64-bit binary floating-point value.
    Number(u64),
    /// A boolean.
    Boolean(bool),
    /// A string.
    String(String),
    /// The null value.
    Null,
    /// An array: an ordered sequence of values.
    Array(Vec<JsonValue>),
    /// An object: key/value pairs in insertion order, keys unique.
    Object(Vec<(String, JsonValue)>),
}

/// The model of a tree.
pub open spec fn value_model(v: JsonValue) -> SpecValue
    decreases v,
    via value_model_dec
{
    match v {
        JsonValue::Number(bits) => SpecValue::Number(bits),
        JsonValue::Boolean(b) => SpecValue::Boolean(b),
        JsonValue::String(s) => SpecValue::String(s@),
        JsonValue::Null => SpecValue::Null,
        JsonValue::Array(a) => SpecValue::Array(arr_model(a@)),
        JsonValue::Object(o) => SpecValue::Object(obj_model(o@)),
    }
}

/// The models of an array's elements, in order.
pub open spec fn arr_model(a: Seq<JsonValue>) -> Seq<SpecValue>
    decreases a, 0int,
    via arr_model_dec
{
    if a.len() == 0 {
        Seq::empty()
    } else {
        seq![value_model(a.first())] + arr_model(a.drop_first())
    }
}

/// The models of an object's pairs, in order.
pub open spec fn obj_model(o: Seq<(String, JsonValue)>) -> Seq<(Seq<char>, SpecValue)>
    decreases o, 0int,
    via obj_model_dec
{
    if o.len() == 0 {
        Seq::empty()
    } else {
        seq![(o.first().0@, value_model(o.first().1))] + obj_model(o.drop_first())
    }
}

#[via_fn]
proof fn value_model_dec(v: JsonValue) {
    match v {
        JsonValue::Array(a) => {
            assert(decreases_to!(a => a@));
        },
        JsonValue::Object(o) => {
            assert(decreases_to!(o => o@));
        },
        _ => (),
    }
}

#[via_fn]
proof fn arr_model_dec(a: Seq<JsonValue>) {
    if a.len() != 0 {
        assert(decreases_to!(a => a[0]));
        assert(decreases_to!(a => a.drop_first()));
    }
}

#[via_fn]
proof fn obj_model_dec(o: Seq<(String, JsonValue)>) {
    if o.len() != 0 {
        assert(decreases_to!(o => o[0]));
        assert(decreases_to!(o => o.drop_first()));
    }
}

impl View for JsonValue {
    type V = SpecValue;

    open spec fn view(&self) -> SpecValue {
        value_model(*self)
    }
}

/// The keys of an object's pair sequence are pairwise distinct.
pub open spec fn obj_keys_unique(m: Seq<(Seq<char>, SpecValue)>) -> bool {
    forall|i: int, j: int| 0 <= i < j < m.len() ==> m[i].0 != m[j].0
}

/// Every object anywhere in the tree has unique keys.
pub open spec fn value_wf(v: SpecValue) -> bool
    decreases v,
    via value_wf_dec
{
    match v {
        SpecValue::Array(a) => forall|i: int| 0 <= i < a.len() ==> value_wf(#[trigger] a[i]),
        SpecValue::Object(m) => obj_keys_unique(m) && forall|i: int|
            0 <= i < m.len() ==> value_wf(#[trigger] m[i].1),
        _ => true,
    }
}

#[via_fn]
proof fn value_wf_dec(v: SpecValue) {
    match v {
        SpecValue::Array(a) => {
            assert forall|i: int| 0 <= i < a.len() implies decreases_to!(a => a[i]) by {}
        },
        SpecValue::Object(m) => {
            assert forall|i: int| 0 <= i < m.len() implies decreases_to!(m => m[i]) by {}
        },
        _ => (),
    }
}

/// The value at the first pair with the given key, if any.
pub open spec fn obj_lookup(m: Seq<(Seq<char>, SpecValue)>, k: Seq<char>) -> Option<SpecValue>
    decreases m.len(),
{
    if m.len() == 0 {
        None
    } else if m[0].0 == k {
        Some(m[0].1)
    } else {
        obj_lookup(m.drop_first(), k)
    }
}

/// Replacing the value at an existing key in place, else appending the
/// pair; this is how the parser gives an object's last write the win
/// while keeping first-insertion order.
pub open spec fn spec_obj_insert(
    m: Seq<(Seq<char>, SpecValue)>,
    k: Seq<char>,
    v: SpecValue,
) -> Seq<(Seq<char>, SpecValue)>
    decreases m.len(),
{
    if m.len() == 0 {
        seq![(k, v)]
    } else if m[0].0 == k {
        seq![(k, v)] + m.drop_first()
    } else {
        seq![m[0]] + spec_obj_insert(m.drop_first(), k, v)
    }
}

/// `arr_model` is the pointwise model of the elements.
pub broadcast proof fn lemma_arr_model(a: Seq<JsonValue>)
    ensures
        (#[trigger] arr_model(a)).len() == a.len(),
        forall|i: int| 0 <= i < a.len() ==> arr_model(a)[i] == value_model(#[trigger] a[i]),
        forall|i: int| 0 <= i < a.len() ==> #[trigger] arr_model(a)[i] == value_model(a[i]),
    decreases a.len(),
{
    if a.len() > 0 {
        lemma_arr_model(a.drop_first());
        assert forall|i: int| 0 <= i < a.len() implies arr_model(a)[i] == value_model(
            #[trigger] a[i],
        ) by {
            if i > 0 {
                assert(a.drop_first()[i - 1] == a[i]);
            }
        }
    }
}

/// `obj_model` is the pointwise model of the pairs.
pub broadcast proof fn lemma_obj_model(o: Seq<(String, JsonValue)>)
    ensures
        (#[trigger] obj_model(o)).len() == o.len(),
        forall|i: int| 0 <= i < o.len() ==> obj_model(o)[i] == ((#[trigger] o[i]).0@,
        value_model(o[i].1)),
        forall|i: int| 0 <= i < o.len() ==> #[trigger] obj_model(o)[i] == (o[i].0@,
        value_model(o[i].1)),
    decreases o.len(),
{
    if o.len() > 0 {
        lemma_obj_model(o.drop_first());
        assert forall|i: int| 0 <= i < o.len() implies obj_model(o)[i] == ((#[trigger] o[i]).0@,
        value_model(o[i].1)) by {
            if i > 0 {
                assert(o.drop_first()[i - 1] == o[i]);
            }
        }
    }
}

/// Trait of the types that can sit directly inside a value: reading the
/// payload of a value through a shared reference. `wraps(x, v)` says that
/// `v` is exactly the variant carrying `x`.
pub trait InnerAsRef: Sized {
    /// `v` is exactly the variant carrying `x`.
    spec fn wraps(x: Self, v: SpecValue) -> bool;

    /// `v`'s tag admits this payload type at all.
    spec fn can_wrap(v: SpecValue) -> bool;

    fn json_value_as(v: &JsonValue) -> (r: Option<&Self>)
        ensures
            r is Some <==> Self::can_wrap(v@),
            r matches Some(x) ==> Self::wraps(*x, v@),
    ;
}

/// Trait of the types that can sit directly inside a value: reading the
/// payload of a value through an exclusive reference.
pub trait InnerAsRefMut: Sized {
    /// `v` is exactly the variant carrying `x`.
    spec fn wraps_mut(x: Self, v: SpecValue) -> bool;

    /// `v`'s tag admits this payload type at all.
    spec fn can_wrap_mut(v: SpecValue) -> bool;

    fn json_value_as_mut(v: &mut JsonValue) -> (r: Option<&mut Self>)
        ensures
            r is Some <==> Self::can_wrap_mut(old(v)@),
            r matches Some(x) ==> Self::wraps_mut(*x, old(v)@) && Self::wraps_mut(
                *final(x),
                final(v)@,
            ),
            r is None ==> *final(v) == *old(v),
    ;
}

impl InnerAsRef for u64 {
    open spec fn can_wrap(v: SpecValue) -> bool {
        v is Number
    }

    open spec fn wraps(x: u64, v: SpecValue) -> bool {
        v == SpecValue::Number(x)
    }

    fn json_value_as(v: &JsonValue) -> (r: Option<&u64>) {
        match v {
            JsonValue::Number(n) => Some(n),
            _ => None,
        }
    }
}

impl InnerAsRef for bool {
    open spec fn can_wrap(v: SpecValue) -> bool {
        v is Boolean
    }

    open spec fn wraps(x: bool, v: SpecValue) -> bool {
        v == SpecValue::Boolean(x)
    }

    fn json_value_as(v: &JsonValue) -> (r: Option<&bool>) {
        match v {
            JsonValue::Boolean(b) => Some(b),
            _ => None,
        }
    }
}

impl InnerAsRef for String {
    open spec fn can_wrap(v: SpecValue) -> bool {
        v is String
    }

    open spec fn wraps(x: String, v: SpecValue) -> bool {
        v == SpecValue::String(x@)
    }

    fn json_value_as(v: &JsonValue) -> (r: Option<&String>) {
        match v {
            JsonValue::String(s) => Some(s),
            _ => None,
        }
    }
}

impl InnerAsRef for () {
    open spec fn can_wrap(v: SpecValue) -> bool {
        v is Null
    }

    open spec fn wraps(x: (), v: SpecValue) -> bool {
        v == SpecValue::Null
    }

    fn json_value_as(v: &JsonValue) -> (r: Option<&()>) {
        match v {
            JsonValue::Null => Some(&()),
            _ => None,
        }
    }
}

impl InnerAsRef for Vec<JsonValue> {
    open spec fn can_wrap(v: SpecValue) -> bool {
        v is Array
    }

    open spec fn wraps(x: Vec<JsonValue>, v: SpecValue) -> bool {
        v == SpecValue::Array(arr_model(x@))
    }

    fn json_value_as(v: &JsonValue) -> (r: Option<&Vec<JsonValue>>) {
        match v {
            JsonValue::Array(a) => Some(a),
            _ => None,
        }
    }
}

impl InnerAsRef for Vec<(String, JsonValue)> {
    open spec fn can_wrap(v: SpecValue) -> bool {
        v is Object
    }

    open spec fn wraps(x: Vec<(String, JsonValue)>, v: SpecValue) -> bool {
        v == SpecValue::Object(obj_model(x@))
    }

    fn json_value_as(v: &JsonValue) -> (r: Option<&Vec<(String, JsonValue)>>) {
        match v {
            JsonValue::Object(o) => Some(o),
            _ => None,
        }
    }
}

impl InnerAsRefMut for u64 {
    open spec fn can_wrap_mut(v: SpecValue) -> bool {
        v is Number
    }

    open spec fn wraps_mut(x: u64, v: SpecValue) -> bool {
        v == SpecValue::Number(x)
    }

    fn json_value_as_mut(v: &mut JsonValue) -> (r: Option<&mut u64>) {
        match v {
            JsonValue::Number(n) => Some(n),
            _ => None,
        }
    }
}

impl InnerAsRefMut for bool {
    open spec fn can_wrap_mut(v: SpecValue) -> bool {
        v is Boolean
    }

    open spec fn wraps_mut(x: bool, v: SpecValue) -> bool {
        v == SpecValue::Boolean(x)
    }

    fn json_value_as_mut(v: &mut JsonValue) -> (r: Option<&mut bool>) {
        match v {
            JsonValue::Boolean(b) => Some(b),
            _ => None,
        }
    }
}

impl InnerAsRefMut for String {
    open spec fn can_wrap_mut(v: SpecValue) -> bool {
        v is String
    }

    open spec fn wraps_mut(x: String, v: SpecValue) -> bool {
        v == SpecValue::String(x@)
    }

    fn json_value_as_mut(v: &mut JsonValue) -> (r: Option<&mut String>) {
        match v {
            JsonValue::String(s) => Some(s),
            _ => None,
        }
    }
}

impl InnerAsRefMut for Vec<JsonValue> {
    open spec fn can_wrap_mut(v: SpecValue) -> bool {
        v is Array
    }

    open spec fn wraps_mut(x: Vec<JsonValue>, v: SpecValue) -> bool {
        v == SpecValue::Array(arr_model(x@))
    }

    fn json_value_as_mut(v: &mut JsonValue) -> (r: Option<&mut Vec<JsonValue>>) {
        match v {
            JsonValue::Array(a) => Some(a),
            _ => None,
        }
    }
}

impl InnerAsRefMut for Vec<(String, JsonValue)> {
    open spec fn can_wrap_mut(v: SpecValue) -> bool {
        v is Object
    }

    open spec fn wraps_mut(x: Vec<(String, JsonValue)>, v: SpecValue) -> bool {
        v == SpecValue::Object(obj_model(x@))
    }

    fn json_value_as_mut(v: &mut JsonValue) -> (r: Option<&mut Vec<(String, JsonValue)>>) {
        match v {
            JsonValue::Object(o) => Some(o),
            _ => None,
        }
    }
}

impl JsonValue {
    /// The tree is a number.
    pub fn is_number(&self) -> (r: bool)
        ensures
            r == (self@ is Number),
    {
        match self {
            JsonValue::Number(_) => true,
            _ => false,
        }
    }

    /// The tree is a boolean.
    pub fn is_bool(&self) -> (r: bool)
        ensures
            r == (self@ is Boolean),
    {
        match self {
            JsonValue::Boolean(_) => true,
            _ => false,
        }
    }

    /// The tree is a string.
    pub fn is_string(&self) -> (r: bool)
        ensures
            r == (self@ is String),
    {
        match self {
            JsonValue::String(_) => true,
            _ => false,
        }
    }

    /// The tree is null.
    pub fn is_null(&self) -> (r: bool)
        ensures
            r == (self@ is Null),
    {
        match self {
            JsonValue::Null => true,
            _ => false,
        }
    }

    /// The tree is an array.
    pub fn is_array(&self) -> (r: bool)
        ensures
            r == (self@ is Array),
    {
        match self {
            JsonValue::Array(_) => true,
            _ => false,
        }
    }

    /// The tree is an object.
    pub fn is_object(&self) -> (r: bool)
        ensures
            r == (self@ is Object),
    {
        match self {
            JsonValue::Object(_) => true,
            _ => false,
        }
    }

    /// A reference to the payload, if and only if the tag matches the
    /// requested type; a mismatch is a normal negative result.
    pub fn get<T: InnerAsRef>(&self) -> (r: Option<&T>)
        ensures
            r is Some <==> T::can_wrap(self@),
            r matches Some(x) ==> T::wraps(*x, self@),
    {
        T::json_value_as(self)
    }

    /// An exclusive reference to the payload, if and only if the tag
    /// matches the requested type.
    pub fn get_mut<T: InnerAsRefMut>(&mut self) -> (r: Option<&mut T>)
        ensures
            r is Some <==> T::can_wrap_mut(old(self)@),
            r matches Some(x) ==> T::wraps_mut(*x, old(self)@) && T::wraps_mut(
                *final(x),
                final(self)@,
            ),
            r is None ==> *final(self) == *old(self),
    {
        T::json_value_as_mut(self)
    }

    /// Direct access to an object's value at a key: the value must be an
    /// object and the key must be present.
    pub fn index_key(&self, key: &str) -> (r: &JsonValue)
        requires
            self@ is Object,
            obj_lookup(self@->Object_0, key@) is Some,
        ensures
            Some(r@) == obj_lookup(self@->Object_0, key@),
    {
        broadcast use lemma_arr_model, lemma_obj_model;

        match self {
            JsonValue::Object(o) => {
                match obj_find(o, key) {
                    Some(i) => {
                        proof {
                            assert(*self == JsonValue::Object(*o));
                            assert(self@ == SpecValue::Object(obj_model(o@)));
                            assert(o@[i as int].0@ == key@);
                            assert forall|j: int| 0 <= j < i as int implies obj_model(
                                o@,
                            )[j].0 != key@ by {
                                assert(o@[j].0@ != key@);
                            }
                            lemma_obj_lookup_at(obj_model(o@), key@, i as int);
                        }
                        &o[i].1
                    },
                    None => {
                        proof {
                            assert(*self == JsonValue::Object(*o));
                            assert forall|j: int| 0 <= j < obj_model(o@).len() implies obj_model(
                                o@,
                            )[j].0 != key@ by {
                                assert(o@[j].0@ != key@);
                            }
                            lemma_obj_lookup_none(obj_model(o@), key@);
                        }
                        vstd::pervasive::unreached()
                    },
                }
            },
            _ => vstd::pervasive::unreached(),
        }
    }

    /// Direct access to an array's element: the value must be an array
    /// and the index must be in bounds.
    pub fn index_at(&self, idx: usize) -> (r: &JsonValue)
        requires
            self@ is Array,
            idx < self@->Array_0.len(),
        ensures
            r@ == self@->Array_0[idx as int],
    {
        broadcast use lemma_arr_model, lemma_obj_model;

        match self {
            JsonValue::Array(a) => {
                proof {
                    assert(*self == JsonValue::Array(*a));
                    assert(self@ == SpecValue::Array(arr_model(a@)));
                    assert(arr_model(a@).len() == a@.len());
                    assert(idx < a@.len());
                }
                &a[idx]
            },
            _ => vstd::pervasive::unreached(),
        }
    }

    /// Exclusive direct access to an object's value at a key.
    pub fn index_key_mut(&mut self, key: &str) -> (r: &mut JsonValue)
        requires
            old(self)@ is Object,
            obj_lookup(old(self)@->Object_0, key@) is Some,
        ensures
            Some(r@) == obj_lookup(old(self)@->Object_0, key@),
            final(self)@ is Object,
            final(self)@->Object_0 =~= spec_obj_insert(old(self)@->Object_0, key@, final(r)@),
    {
        broadcast use lemma_arr_model, lemma_obj_model;

        match <Vec<(String, JsonValue)> as InnerAsRefMut>::json_value_as_mut(self) {
            Some(o) => {
                match obj_find(o, key) {
                    Some(i) => {
                        proof {
                            assert(o@[i as int].0@ == key@);
                            assert forall|j: int| 0 <= j < i as int implies obj_model(
                                o@,
                            )[j].0 != key@ by {
                                assert(o@[j].0@ != key@);
                            }
                            lemma_obj_lookup_at(obj_model(o@), key@, i as int);
                            lemma_obj_insert_at(obj_model(o@), key@, i as int);
                        }
                        obj_pair_value_mut(o, i)
                    },
                    None => {
                        proof {
                            assert forall|j: int| 0 <= j < obj_model(o@).len() implies obj_model(
                                o@,
                            )[j].0 != key@ by {
                                assert(o@[j].0@ != key@);
                            }
                            lemma_obj_lookup_none(obj_model(o@), key@);
                        }
                        vstd::pervasive::unreached()
                    },
                }
            },
            None => vstd::pervasive::unreached(),
        }
    }

    /// Exclusive direct access to an array's element.
    pub fn index_at_mut(&mut self, idx: usize) -> (r: &mut JsonValue)
        requires
            old(self)@ is Array,
            idx < old(self)@->Array_0.len(),
        ensures
            r@ == old(self)@->Array_0[idx as int],
            final(self)@ is Array,
            final(self)@->Array_0 =~= old(self)@->Array_0.update(idx as int, final(r)@),
    {
        broadcast use lemma_arr_model, lemma_obj_model;

        match <Vec<JsonValue> as InnerAsRefMut>::json_value_as_mut(self) {
            Some(a) => arr_elem_mut(a, idx),
            None => vstd::pervasive::unreached(),
        }
    }
}

/// An exclusive reference to one element of an array's backing vector.
fn arr_elem_mut(a: &mut Vec<JsonValue>, idx: usize) -> (r: &mut JsonValue)
    requires
        idx < old(a)@.len(),
    ensures
        *r == old(a)@[idx as int],
        final(a)@ == old(a)@.update(idx as int, *final(r)),
{
    &mut a[idx]
}

/// An exclusive reference to the value of one pair of an object's
/// backing vector; the key stays as it is.
fn obj_pair_value_mut(o: &mut Vec<(String, JsonValue)>, i: usize) -> (r: &mut JsonValue)
    requires
        i < old(o)@.len(),
    ensures
        *r == old(o)@[i as int].1,
        final(o)@ == old(o)@.update(i as int, (old(o)@[i as int].0, *final(r))),
{
    let p = &mut o[i];
    &mut p.1
}

/// Position of the first pair with the given key, if any.
pub(crate) fn obj_find(o: &Vec<(String, JsonValue)>, key: &str) -> (r: Option<usize>)
    ensures
        match r {
            Some(i) => i < o@.len() && o@[i as int].0@ == key@ && (forall|j: int|
                0 <= j < i ==> o@[j].0@ != key@),
            None => forall|j: int| 0 <= j < o@.len() ==> o@[j].0@ != key@,
        },
{
    let k = String::from_str(key);
    let mut i: usize = 0;
    while i < o.len()
        invariant
            i <= o@.len(),
            k@ == key@,
            forall|j: int| 0 <= j < i ==> o@[j].0@ != key@,
        decreases o@.len() - i,
    {
        if o[i].0 == k {
            return Some(i);
        }
        i = i + 1;
    }
    None
}

/// `obj_lookup` returns the value at the first matching index.
pub proof fn lemma_obj_lookup_at(m: Seq<(Seq<char>, SpecValue)>, k: Seq<char>, i: int)
    requires
        0 <= i < m.len(),
        m[i].0 == k,
        forall|j: int| 0 <= j < i ==> m[j].0 != k,
    ensures
        obj_lookup(m, k) == Some(m[i].1),
    decreases i,
{
    if i > 0 {
        lemma_obj_lookup_at(m.drop_first(), k, i - 1);
    }
}

/// `obj_lookup` misses exactly when no pair has the key.
pub proof fn lemma_obj_lookup_none(m: Seq<(Seq<char>, SpecValue)>, k: Seq<char>)
    requires
        forall|j: int| 0 <= j < m.len() ==> m[j].0 != k,
    ensures
        obj_lookup(m, k) is None,
    decreases m.len(),
{
    if m.len() > 0 {
        lemma_obj_lookup_none(m.drop_first(), k);
    }
}

/// At a present key, `spec_obj_insert` is an in-place update at the
/// first matching index, whatever the new value.
pub proof fn lemma_obj_insert_at(m: Seq<(Seq<char>, SpecValue)>, k: Seq<char>, i: int)
    requires
        0 <= i < m.len(),
        m[i].0 == k,
        forall|j: int| 0 <= j < i ==> m[j].0 != k,
    ensures
        forall|vv: SpecValue| spec_obj_insert(m, k, vv) =~= m.update(i, (k, vv)),
    decreases i,
{
    if i == 0 {
        assert forall|vv: SpecValue| spec_obj_insert(m, k, vv) =~= m.update(i, (k, vv)) by {
            assert(spec_obj_insert(m, k, vv) == seq![(k, vv)] + m.drop_first());
        }
    } else {
        lemma_obj_insert_at(m.drop_first(), k, i - 1);
        assert forall|vv: SpecValue| spec_obj_insert(m, k, vv) =~= m.update(i, (k, vv)) by {
            assert(spec_obj_insert(m.drop_first(), k, vv) =~= m.drop_first().update(
                i - 1,
                (k, vv),
            ));
            assert(spec_obj_insert(m, k, vv) == seq![m[0]] + spec_obj_insert(
                m.drop_first(),
                k,
                vv,
            ));
        }
    }
}

/// At an absent key, `spec_obj_insert` appends the pair.
pub proof fn lemma_obj_insert_append(m: Seq<(Seq<char>, SpecValue)>, k: Seq<char>, v: SpecValue)
    requires
        forall|j: int| 0 <= j < m.len() ==> m[j].0 != k,
    ensures
        spec_obj_insert(m, k, v) =~= m.push((k, v)),
    decreases m.len(),
{
    if m.len() > 0 {
        lemma_obj_insert_append(m.drop_first(), k, v);
        assert(spec_obj_insert(m, k, v) == seq![m[0]] + spec_obj_insert(m.drop_first(), k, v));
    }
}

/// Inserting keeps keys unique and keeps every stored value intact or
/// replaces one with the new value.
pub proof fn lemma_obj_insert_wf(m: Seq<(Seq<char>, SpecValue)>, k: Seq<char>, v: SpecValue)
    requires
        obj_keys_unique(m),
    ensures
        obj_keys_unique(spec_obj_insert(m, k, v)),
        forall|j: int| 0 <= j < spec_obj_insert(m, k, v).len() ==> ((#[trigger] spec_obj_insert(
            m,
            k,
            v,
        )[j]).1 == v || exists|j2: int| 0 <= j2 < m.len() && spec_obj_insert(m, k, v)[j]
            == m[j2]),
    decreases m.len(),
{
    let r = spec_obj_insert(m, k, v);
    if m.len() == 0 {
        assert(r =~= seq![(k, v)]);
    } else if m[0].0 == k {
        assert(r =~= seq![(k, v)] + m.drop_first());
        assert forall|j: int| 0 <= j < r.len() implies ((#[trigger] r[j]).1 == v || exists|j2: int|
            0 <= j2 < m.len() && r[j] == m[j2]) by {
            if j > 0 {
                assert(r[j] == m[j]);
            }
        }
    } else {
        lemma_obj_insert_wf(m.drop_first(), k, v);
        let rr = spec_obj_insert(m.drop_first(), k, v);
        assert(r =~= seq![m[0]] + rr);
        assert forall|i: int, j: int| 0 <= i < j < r.len() implies r[i].0 != r[j].0 by {
            if i == 0 {
                // m[0].0 differs from k and from every later key of m.
                assert(r[j] == rr[j - 1]);
                assert(rr[j - 1].1 == v || exists|j2: int| 0 <= j2 < m.drop_first().len()
                    && rr[j - 1] == m.drop_first()[j2]);
                lemma_obj_insert_keys(m.drop_first(), k, v, j - 1);
            } else {
                assert(r[i] == rr[i - 1] && r[j] == rr[j - 1]);
            }
        }
        assert forall|j: int| 0 <= j < r.len() implies ((#[trigger] r[j]).1 == v || exists|j2: int|
            0 <= j2 < m.len() && r[j] == m[j2]) by {
            if j == 0 {
                assert(r[0] == m[0]);
            } else {
                assert(r[j] == rr[j - 1]);
                if !(rr[j - 1].1 == v) {
                    let j2 = choose|j2: int|
                        0 <= j2 < m.drop_first().len() && rr[j - 1] == m.drop_first()[j2];
                    assert(m.drop_first()[j2] == m[j2 + 1]);
                }
            }
        }
    }
}

/// Every key of an inserted sequence is the inserted key or one of the
/// old keys.
pub proof fn lemma_obj_insert_keys(
    m: Seq<(Seq<char>, SpecValue)>,
    k: Seq<char>,
    v: SpecValue,
    j: int,
)
    requires
        0 <= j < spec_obj_insert(m, k, v).len(),
    ensures
        spec_obj_insert(m, k, v)[j].0 == k || exists|j2: int| 0 <= j2 < m.len() && spec_obj_insert(
            m,
            k,
            v,
        )[j].0 == m[j2].0,
    decreases m.len(),
{
    let r = spec_obj_insert(m, k, v);
    if m.len() == 0 {
    } else if m[0].0 == k {
        if j > 0 {
            assert(r[j] == m[j]);
        }
    } else {
        if j > 0 {
            lemma_obj_insert_keys(m.drop_first(), k, v, j - 1);
            assert(r[j] == spec_obj_insert(m.drop_first(), k, v)[j - 1]);
            if r[j].0 != k {
                let j2 = choose|j2: int|
                    0 <= j2 < m.drop_first().len() && spec_obj_insert(m.drop_first(), k, v)[j
                    - 1].0 == m.drop_first()[j2].0;
                assert(m.drop_first()[j2] == m[j2 + 1]);
            }
        }
    }
}

/// A typed-conversion failure: the value that did not convert, kept
/// whole so the caller can recover it, and the name of the expected type.
#[derive(Debug)]
pub struct UnexpectedValue {
    value: JsonValue,
    expected: &'static str,
}

impl UnexpectedValue {
    /// The wrapped value, for specifications.
    pub closed spec fn spec_value(self) -> JsonValue {
        self.value
    }

    /// The expected type's name, for specifications.
    pub closed spec fn spec_expected(self) -> Seq<char> {
        self.expected@
    }

    /// A reference to the value that failed to convert.
    pub fn value(&self) -> (r: &JsonValue)
        ensures
            *r == self.spec_value(),
    {
        &self.value
    }

    /// The name of the type the conversion expected.
    pub fn expected(&self) -> (r: &'static str)
        ensures
            r@ == self.spec_expected(),
    {
        self.expected
    }

    /// Recover the value that failed to convert.
    pub fn into_value(self) -> (r: JsonValue)
        ensures
            r == self.spec_value(),
    {
        self.value
    }
}

impl From<UnexpectedValue> for JsonValue {
    fn from(err: UnexpectedValue) -> (r: JsonValue) {
        err.value
    }
}

impl vstd::std_specs::convert::FromSpecImpl<UnexpectedValue> for JsonValue {
    open spec fn obeys_from_spec() -> bool {
        true
    }

    open spec fn from_spec(err: UnexpectedValue) -> JsonValue {
        err.spec_value()
    }
}

impl From<u64> for JsonValue {
    fn from(bits: u64) -> (r: JsonValue) {
        JsonValue::Number(bits)
    }
}

impl vstd::std_specs::convert::FromSpecImpl<u64> for JsonValue {
    open spec fn obeys_from_spec() -> bool {
        true
    }

    open spec fn from_spec(bits: u64) -> JsonValue {
        JsonValue::Number(bits)
    }
}

impl From<bool> for JsonValue {
    fn from(b: bool) -> (r: JsonValue) {
        JsonValue::Boolean(b)
    }
}

impl vstd::std_specs::convert::FromSpecImpl<bool> for JsonValue {
    open spec fn obeys_from_spec() -> bool {
        true
    }

    open spec fn from_spec(b: bool) -> JsonValue {
        JsonValue::Boolean(b)
    }
}

impl From<String> for JsonValue {
    fn from(s: String) -> (r: JsonValue) {
        JsonValue::String(s)
    }
}

impl vstd::std_specs::convert::FromSpecImpl<String> for JsonValue {
    open spec fn obeys_from_spec() -> bool {
        true
    }

    open spec fn from_spec(s: String) -> JsonValue {
        JsonValue::String(s)
    }
}

impl From<()> for JsonValue {
    fn from(_u: ()) -> (r: JsonValue) {
        JsonValue::Null
    }
}

impl vstd::std_specs::convert::FromSpecImpl<()> for JsonValue {
    open spec fn obeys_from_spec() -> bool {
        true
    }

    open spec fn from_spec(_u: ()) -> JsonValue {
        JsonValue::Null
    }
}

impl From<Vec<JsonValue>> for JsonValue {
    fn from(a: Vec<JsonValue>) -> (r: JsonValue) {
        JsonValue::Array(a)
    }
}

impl vstd::std_specs::convert::FromSpecImpl<Vec<JsonValue>> for JsonValue {
    open spec fn obeys_from_spec() -> bool {
        true
    }

    open spec fn from_spec(a: Vec<JsonValue>) -> JsonValue {
        JsonValue::Array(a)
    }
}

impl From<Vec<(String, JsonValue)>> for JsonValue {
    fn from(o: Vec<(String, JsonValue)>) -> (r: JsonValue) {
        JsonValue::Object(o)
    }
}

impl vstd::std_specs::convert::FromSpecImpl<Vec<(String, JsonValue)>> for JsonValue {
    open spec fn obeys_from_spec() -> bool {
        true
    }

    open spec fn from_spec(o: Vec<(String, JsonValue)>) -> JsonValue {
        JsonValue::Object(o)
    }
}

impl JsonValue {
    /// Extract the number payload, or fail with a recoverable typed error.
    pub fn try_into_number(self) -> (r: Result<u64, UnexpectedValue>)
        ensures
            match r {
                Ok(bits) => self@ == SpecValue::Number(bits),
                Err(e) => !(self@ is Number) && e.spec_value() == self,
            },
    {
        match self {
            JsonValue::Number(n) => Ok(n),
            v => Err(UnexpectedValue { value: v, expected: "number" }),
        }
    }

    /// Extract the boolean payload, or fail with a recoverable typed error.
    pub fn try_into_bool(self) -> (r: Result<bool, UnexpectedValue>)
        ensures
            match r {
                Ok(b) => self@ == SpecValue::Boolean(b),
                Err(e) => !(self@ is Boolean) && e.spec_value() == self,
            },
    {
        match self {
            JsonValue::Boolean(b) => Ok(b),
            v => Err(UnexpectedValue { value: v, expected: "boolean" }),
        }
    }

    /// Extract the string payload, or fail with a recoverable typed error.
    pub fn try_into_string(self) -> (r: Result<String, UnexpectedValue>)
        ensures
            match r {
                Ok(s) => self@ == SpecValue::String(s@),
                Err(e) => !(self@ is String) && e.spec_value() == self,
            },
    {
        match self {
            JsonValue::String(s) => Ok(s),
            v => Err(UnexpectedValue { value: v, expected: "string" }),
        }
    }

    /// Observe the null value, or fail with a recoverable typed error.
    pub fn try_into_null(self) -> (r: Result<(), UnexpectedValue>)
        ensures
            match r {
                Ok(_) => self@ == SpecValue::Null,
                Err(e) => !(self@ is Null) && e.spec_value() == self,
            },
    {
        match self {
            JsonValue::Null => Ok(()),
            v => Err(UnexpectedValue { value: v, expected: "null" }),
        }
    }

    /// Extract the array payload, or fail with a recoverable typed error.
    pub fn try_into_array(self) -> (r: Result<Vec<JsonValue>, UnexpectedValue>)
        ensures
            match r {
                Ok(a) => self@ == SpecValue::Array(arr_model(a@)),
                Err(e) => !(self@ is Array) && e.spec_value() == self,
            },
    {
        match self {
            JsonValue::Array(a) => Ok(a),
            v => Err(UnexpectedValue { value: v, expected: "array" }),
        }
    }

    /// Extract the object payload, or fail with a recoverable typed error.
    pub fn try_into_object(self) -> (r: Result<Vec<(String, JsonValue)>, UnexpectedValue>)
        ensures
            match r {
                Ok(o) => self@ == SpecValue::Object(obj_model(o@)),
                Err(e) => !(self@ is Object) && e.spec_value() == self,
            },
    {
        match self {
            JsonValue::Object(o) => Ok(o),
            v => Err(UnexpectedValue { value: v, expected: "object" }),
        }
    }
}

} // verus!
