//! The query layer: panic-safe navigation over a value tree, by key,
//! index, or predicate. "No value selected" is a valid terminal state,
//! not an error.
//!
//! The read-only query copies on narrowing; the mutable query consumes
//! itself on narrowing, so that two exclusive references into the same
//! tree never coexist.

use vstd::prelude::*;

use crate::value::{
    InnerAsRef, InnerAsRefMut, JsonValue, SpecValue, obj_find, obj_lookup, obj_model,
    lemma_obj_model, lemma_arr_model, lemma_obj_lookup_at, lemma_obj_lookup_none, arr_model,
};

verus! {

broadcast use vstd::std_specs::vec::group_vec_axioms, vstd::seq::group_seq_axioms;

/// Panic-safe read-only query over a value tree. Narrowing produces a
/// new query; a missing key, an out-of-bounds index, or a wrong
/// container type yields the empty selection.
pub struct JsonQuery<'val>(Option<&'val JsonValue>);

/// Panic-safe mutating query over a value tree. Narrowing consumes the
/// query, since an exclusive reference cannot be copied.
pub struct JsonQueryMut<'val>(Option<&'val mut JsonValue>);

/// Trait of the index types a query can narrow by: a string key for
/// objects, an integer index for arrays, or anything a user defines.
pub trait ChildIndex: Sized {
    /// What the index selects from the current selection.
    spec fn spec_child(self, cur: Option<SpecValue>) -> Option<SpecValue>;

    /// Narrow a read-only query.
    fn index<'a>(self, q: &JsonQuery<'a>) -> (r: JsonQuery<'a>)
        ensures
            r.spec_sel() == self.spec_child(q.spec_sel()),
    ;

    /// Narrow a mutating query.
    fn index_mut<'a>(self, q: JsonQueryMut<'a>) -> (r: JsonQueryMut<'a>)
        ensures
            r.spec_sel() == self.spec_child(q.spec_sel()),
    ;
}

/// The predicate, handed some reference to a value whose model is `m`,
/// answered `b`.
pub open spec fn pred_answer<F: Fn(&JsonValue) -> bool>(f: F, m: SpecValue, b: bool) -> bool {
    exists|p: &JsonValue| (#[trigger] f.ensures((p,), b)) && (*p)@ == m
}

impl<'val> JsonQuery<'val> {
    /// The model of the selected value, if one is selected.
    pub closed spec fn spec_sel(self) -> Option<SpecValue> {
        match self.0 {
            Some(v) => Some(v@),
            None => None,
        }
    }

    /// A query selecting the given value.
    pub fn new(v: &'val JsonValue) -> (r: Self)
        ensures
            r.spec_sel() == Some(v@),
    {
        JsonQuery(Some(v))
    }

    /// The empty selection.
    pub fn empty() -> (r: Self)
        ensures
            r.spec_sel() is None,
    {
        JsonQuery(None)
    }

    /// Narrow by a key or index.
    pub fn child<I: ChildIndex>(&self, index: I) -> (r: Self)
        ensures
            r.spec_sel() == index.spec_child(self.spec_sel()),
    {
        index.index(self)
    }

    /// Narrow to the first array element (or object value, in pair
    /// order) the predicate accepts: the selection is the first element
    /// on which the predicate answered true, after it answered false on
    /// every earlier one; the selection is empty exactly when nothing
    /// was selected, the selection was no container, or the predicate
    /// answered false on every element.
    #[verifier::loop_isolation(false)]
    pub fn child_by<F: Fn(&JsonValue) -> bool>(&self, predicate: F) -> (r: Self)
        requires
            forall|x: &JsonValue| #[trigger] predicate.requires((x,)),
        ensures
            self.spec_sel() is None ==> r.spec_sel() is None,
            self.spec_sel() matches Some(c) ==> (!(c is Array || c is Object) ==> r.spec_sel()
                is None),
            self.spec_sel() matches Some(SpecValue::Array(a)) ==> (match r.spec_sel() {
                Some(x) => exists|i: int|
                    #![trigger a[i]]
                    {
                        &&& 0 <= i < a.len()
                        &&& x == a[i]
                        &&& pred_answer(predicate, a[i], true)
                        &&& forall|j: int| 0 <= j < i ==> pred_answer(
                            predicate,
                            #[trigger] a[j],
                            false,
                        )
                    },
                None => forall|j: int|
                    0 <= j < a.len() ==> pred_answer(predicate, #[trigger] a[j], false),
            }),
            self.spec_sel() matches Some(SpecValue::Object(m)) ==> (match r.spec_sel() {
                Some(x) => exists|i: int|
                    #![trigger m[i]]
                    {
                        &&& 0 <= i < m.len()
                        &&& x == m[i].1
                        &&& pred_answer(predicate, m[i].1, true)
                        &&& forall|j: int| 0 <= j < i ==> pred_answer(
                            predicate,
                            (#[trigger] m[j]).1,
                            false,
                        )
                    },
                None => forall|j: int|
                    0 <= j < m.len() ==> pred_answer(predicate, (#[trigger] m[j]).1, false),
            }),
    {
        broadcast use lemma_arr_model, lemma_obj_model;

        match self.0 {
            Some(v) => match v {
                JsonValue::Array(a) => {
                    proof {
                        assert(v@ == SpecValue::Array(arr_model(a@)));
                    }
                    let ghost ms = arr_model(a@);
                    let mut i: usize = 0;
                    while i < a.len()
                        invariant
                            i <= a@.len(),
                            forall|j: int| 0 <= j < i ==> pred_answer(
                                predicate,
                                #[trigger] ms[j],
                                false,
                            ),
                        decreases a@.len() - i,
                    {
                        let elem = &a[i];
                        if predicate(elem) {
                            proof {
                                assert((*elem)@ == ms[i as int]);
                                assert(0 <= (i as int) && (i as int) < ms.len() && (*elem)@ == ms[i as int]
                                    && pred_answer(predicate, ms[i as int], true) && (forall|
                                    j: int,
                                |
                                    0 <= j < i as int ==> pred_answer(
                                        predicate,
                                        #[trigger] ms[j],
                                        false,
                                    )));
                            }
                            proof {
                                assert(exists|ii: int|
                                    #![trigger ms[ii]]
                                    {
                                        &&& 0 <= ii < ms.len()
                                        &&& (*elem)@ == ms[ii]
                                        &&& pred_answer(predicate, ms[ii], true)
                                        &&& forall|j: int| 0 <= j < ii ==> pred_answer(
                                            predicate,
                                            #[trigger] ms[j],
                                            false,
                                        )
                                    });
                                assert(self.spec_sel() matches Some(SpecValue::Array(aa))
                                    && aa == ms);
                            }
                            return JsonQuery(Some(elem));
                        }
                        proof {
                            assert((*elem)@ == ms[i as int]);
                            assert(pred_answer(predicate, ms[i as int], false));
                        }
                        i = i + 1;
                    }
                    JsonQuery(None)
                },
                JsonValue::Object(o) => {
                    proof {
                        assert(v@ == SpecValue::Object(obj_model(o@)));
                    }
                    let ghost ms = obj_model(o@);
                    let mut i: usize = 0;
                    while i < o.len()
                        invariant
                            i <= o@.len(),
                            forall|j: int| 0 <= j < i ==> pred_answer(
                                predicate,
                                (#[trigger] ms[j]).1,
                                false,
                            ),
                        decreases o@.len() - i,
                    {
                        let elem = &o[i].1;
                        if predicate(elem) {
                            proof {
                                assert((*elem)@ == ms[i as int].1);
                                assert(0 <= (i as int) && (i as int) < ms.len() && (*elem)@ == ms[i as int].1
                                    && pred_answer(predicate, ms[i as int].1, true) && (forall|
                                    j: int,
                                |
                                    0 <= j < i as int ==> pred_answer(
                                        predicate,
                                        (#[trigger] ms[j]).1,
                                        false,
                                    )));
                                assert(exists|ii: int|
                                    #![trigger ms[ii]]
                                    {
                                        &&& 0 <= ii < ms.len()
                                        &&& (*elem)@ == ms[ii].1
                                        &&& pred_answer(predicate, ms[ii].1, true)
                                        &&& forall|j: int| 0 <= j < ii ==> pred_answer(
                                            predicate,
                                            (#[trigger] ms[j]).1,
                                            false,
                                        )
                                    });
                                assert(self.spec_sel() matches Some(SpecValue::Object(mm))
                                    && mm == ms);
                            }
                            return JsonQuery(Some(elem));
                        }
                        proof {
                            assert((*elem)@ == ms[i as int].1);
                            assert(pred_answer(predicate, ms[i as int].1, false));
                        }
                        i = i + 1;
                    }
                    JsonQuery(None)
                },
                _ => JsonQuery(None),
            },
            None => JsonQuery(None),
        }
    }

    /// The selected value, or nothing.
    pub fn find(&self) -> (r: Option<&'val JsonValue>)
        ensures
            match r {
                Some(v) => self.spec_sel() == Some(v@),
                None => self.spec_sel() is None,
            },
    {
        self.0
    }

    /// Whether a value is selected.
    pub fn is_found(&self) -> (r: bool)
        ensures
            r == (self.spec_sel() is Some),
    {
        match self.0 {
            Some(_) => true,
            None => false,
        }
    }

    /// The selected value's payload, if one is selected and its tag
    /// matches the requested type.
    pub fn get<T: InnerAsRef>(&self) -> (r: Option<&'val T>)
        ensures
            match r {
                Some(x) => self.spec_sel() matches Some(m) && T::wraps(*x, m),
                None => self.spec_sel() is None || (self.spec_sel() matches Some(m)
                    && !T::can_wrap(m)),
            },
    {
        match self.0 {
            Some(v) => T::json_value_as(v),
            None => None,
        }
    }
}

impl<'key> ChildIndex for &'key str {
    open spec fn spec_child(self, cur: Option<SpecValue>) -> Option<SpecValue> {
        match cur {
            Some(SpecValue::Object(m)) => obj_lookup(m, self@),
            _ => None,
        }
    }

    fn index<'a>(self, q: &JsonQuery<'a>) -> (r: JsonQuery<'a>) {
        broadcast use lemma_obj_model;

        match q.0 {
            Some(v) => match v {
                JsonValue::Object(o) => {
                    proof {
                        assert(v@ == SpecValue::Object(obj_model(o@)));
                    }
                    match obj_find(o, self) {
                    Some(i) => {
                        proof {
                            assert(o@[i as int].0@ == self@);
                            assert forall|j: int| 0 <= j < i as int implies obj_model(
                                o@,
                            )[j].0 != self@ by {
                                assert(o@[j].0@ != self@);
                            }
                            lemma_obj_lookup_at(obj_model(o@), self@, i as int);
                        }
                        JsonQuery(Some(&o[i].1))
                    },
                    None => {
                        proof {
                            assert forall|j: int| 0 <= j < obj_model(o@).len() implies obj_model(
                                o@,
                            )[j].0 != self@ by {
                                assert(o@[j].0@ != self@);
                            }
                            lemma_obj_lookup_none(obj_model(o@), self@);
                        }
                        JsonQuery(None)
                    },
                }
                },
                _ => JsonQuery(None),
            },
            None => JsonQuery(None),
        }
    }

    fn index_mut<'a>(self, q: JsonQueryMut<'a>) -> (r: JsonQueryMut<'a>) {
        broadcast use lemma_obj_model;

        match q.0 {
            Some(v) => {
                match <Vec<(String, JsonValue)> as InnerAsRefMut>::json_value_as_mut(v) {
                    Some(o) => match obj_find(o, self) {
                        Some(i) => {
                            proof {
                                assert(o@[i as int].0@ == self@);
                                assert forall|j: int| 0 <= j < i as int implies obj_model(
                                    o@,
                                )[j].0 != self@ by {
                                    assert(o@[j].0@ != self@);
                                }
                                lemma_obj_lookup_at(obj_model(o@), self@, i as int);
                            }
                            let p = &mut o[i];
                            JsonQueryMut(Some(&mut p.1))
                        },
                        None => {
                            proof {
                                assert forall|j: int|
                                    0 <= j < obj_model(o@).len() implies obj_model(
                                    o@,
                                )[j].0 != self@ by {
                                    assert(o@[j].0@ != self@);
                                }
                                lemma_obj_lookup_none(obj_model(o@), self@);
                            }
                            JsonQueryMut(None)
                        },
                    },
                    None => JsonQueryMut(None),
                }
            },
            None => JsonQueryMut(None),
        }
    }
}

impl ChildIndex for usize {
    open spec fn spec_child(self, cur: Option<SpecValue>) -> Option<SpecValue> {
        match cur {
            Some(SpecValue::Array(a)) => if self < a.len() {
                Some(a[self as int])
            } else {
                None
            },
            _ => None,
        }
    }

    fn index<'a>(self, q: &JsonQuery<'a>) -> (r: JsonQuery<'a>) {
        broadcast use lemma_arr_model;

        match q.0 {
            Some(v) => match v {
                JsonValue::Array(a) => {
                    proof {
                        assert(v@ == SpecValue::Array(arr_model(a@)));
                    }
                    if self < a.len() {
                        JsonQuery(Some(&a[self]))
                    } else {
                        JsonQuery(None)
                    }
                },
                _ => JsonQuery(None),
            },
            None => JsonQuery(None),
        }
    }

    fn index_mut<'a>(self, q: JsonQueryMut<'a>) -> (r: JsonQueryMut<'a>) {
        broadcast use lemma_arr_model;

        match q.0 {
            Some(v) => {
                match <Vec<JsonValue> as InnerAsRefMut>::json_value_as_mut(v) {
                    Some(a) => {
                        if self < a.len() {
                            JsonQueryMut(Some(&mut a[self]))
                        } else {
                            JsonQueryMut(None)
                        }
                    },
                    None => JsonQueryMut(None),
                }
            },
            None => JsonQueryMut(None),
        }
    }
}

impl<'val> JsonQueryMut<'val> {
    /// The model of the currently selected value, if one is selected.
    pub closed spec fn spec_sel(self) -> Option<SpecValue> {
        match self.0 {
            Some(v) => Some((*v)@),
            None => None,
        }
    }

    /// A query selecting the given value.
    pub fn new(v: &'val mut JsonValue) -> (r: Self)
        ensures
            r.spec_sel() == Some(old(v)@),
    {
        JsonQueryMut(Some(v))
    }

    /// The empty selection.
    pub fn empty() -> (r: Self)
        ensures
            r.spec_sel() is None,
    {
        JsonQueryMut(None)
    }

    /// Narrow by a key or index, consuming the query.
    pub fn child<I: ChildIndex>(self, index: I) -> (r: Self)
        ensures
            r.spec_sel() == index.spec_child(self.spec_sel()),
    {
        index.index_mut(self)
    }

    /// Narrow to the first array element (or object value, in pair
    /// order) the predicate accepts, consuming the query: the selection
    /// is the first element on which the predicate answered true, after
    /// it answered false on every earlier one; the selection is empty
    /// exactly when nothing was selected, the selection was no
    /// container, or the predicate answered false on every element.
    #[verifier::loop_isolation(false)]
    #[verifier::rlimit(100)]
    pub fn child_by<F: Fn(&JsonValue) -> bool>(self, predicate: F) -> (r: Self)
        requires
            forall|x: &JsonValue| #[trigger] predicate.requires((x,)),
        ensures
            self.spec_sel() is None ==> r.spec_sel() is None,
            self.spec_sel() matches Some(c) ==> (!(c is Array || c is Object) ==> r.spec_sel()
                is None),
            self.spec_sel() matches Some(SpecValue::Array(a)) ==> (match r.spec_sel() {
                Some(x) => exists|i: int|
                    #![trigger a[i]]
                    {
                        &&& 0 <= i < a.len()
                        &&& x == a[i]
                        &&& pred_answer(predicate, a[i], true)
                        &&& forall|j: int| 0 <= j < i ==> pred_answer(
                            predicate,
                            #[trigger] a[j],
                            false,
                        )
                    },
                None => forall|j: int|
                    0 <= j < a.len() ==> pred_answer(predicate, #[trigger] a[j], false),
            }),
            self.spec_sel() matches Some(SpecValue::Object(m)) ==> (match r.spec_sel() {
                Some(x) => exists|i: int|
                    #![trigger m[i]]
                    {
                        &&& 0 <= i < m.len()
                        &&& x == m[i].1
                        &&& pred_answer(predicate, m[i].1, true)
                        &&& forall|j: int| 0 <= j < i ==> pred_answer(
                            predicate,
                            (#[trigger] m[j]).1,
                            false,
                        )
                    },
                None => forall|j: int|
                    0 <= j < m.len() ==> pred_answer(predicate, (#[trigger] m[j]).1, false),
            }),
    {
        broadcast use lemma_arr_model, lemma_obj_model;

        match self.0 {
            Some(v) => {
                // Find the first accepted element with a read-only scan,
                // then take the one exclusive borrow of it.
                let ghost cur = (*v)@;
                let mut idx: Option<usize> = None;
                let mut in_array: bool = false;
                let mut in_object: bool = false;
                let ghost mut ma: Seq<SpecValue> = Seq::empty();
                let ghost mut mo: Seq<(Seq<char>, SpecValue)> = Seq::empty();
                match &*v {
                    JsonValue::Array(a) => {
                        in_array = true;
                        proof {
                            ma = crate::value::arr_model(a@);
                            assert(cur == SpecValue::Array(ma));
                        }
                        let mut i: usize = 0;
                        while i < a.len() && idx.is_none()
                            invariant
                                i <= a@.len(),
                                ma.len() == a@.len(),
                                idx is None ==> forall|j: int| 0 <= j < i ==> pred_answer(
                                    predicate,
                                    #[trigger] ma[j],
                                    false,
                                ),
                                idx matches Some(ii) ==> {
                                    &&& (ii as int) < ma.len()
                                    &&& pred_answer(predicate, ma[ii as int], true)
                                    &&& forall|j: int| 0 <= j < ii as int ==> pred_answer(
                                        predicate,
                                        #[trigger] ma[j],
                                        false,
                                    )
                                },
                            decreases a@.len() - i, (if idx is None {
                                1int
                            } else {
                                0int
                            }),
                        {
                            let elem = &a[i];
                            if predicate(elem) {
                                proof {
                                    assert((*elem)@ == ma[i as int]);
                                    assert(pred_answer(predicate, ma[i as int], true));
                                }
                                idx = Some(i);
                            } else {
                                proof {
                                    assert((*elem)@ == ma[i as int]);
                                    assert(pred_answer(predicate, ma[i as int], false));
                                }
                                i = i + 1;
                            }
                        }
                        proof {
                            if idx is None {
                                assert(forall|j: int| 0 <= j < ma.len() ==> pred_answer(
                                    predicate,
                                    #[trigger] ma[j],
                                    false,
                                ));
                            }
                        }
                    },
                    JsonValue::Object(o) => {
                        in_object = true;
                        proof {
                            mo = crate::value::obj_model(o@);
                            assert(cur == SpecValue::Object(mo));
                        }
                        let mut i: usize = 0;
                        while i < o.len() && idx.is_none()
                            invariant
                                i <= o@.len(),
                                mo.len() == o@.len(),
                                idx is None ==> forall|j: int| 0 <= j < i ==> pred_answer(
                                    predicate,
                                    (#[trigger] mo[j]).1,
                                    false,
                                ),
                                idx matches Some(ii) ==> {
                                    &&& (ii as int) < mo.len()
                                    &&& pred_answer(predicate, mo[ii as int].1, true)
                                    &&& forall|j: int| 0 <= j < ii as int ==> pred_answer(
                                        predicate,
                                        (#[trigger] mo[j]).1,
                                        false,
                                    )
                                },
                            decreases o@.len() - i, (if idx is None {
                                1int
                            } else {
                                0int
                            }),
                        {
                            let elem = &o[i].1;
                            if predicate(elem) {
                                proof {
                                    assert((*elem)@ == mo[i as int].1);
                                    assert(pred_answer(predicate, mo[i as int].1, true));
                                }
                                idx = Some(i);
                            } else {
                                proof {
                                    assert((*elem)@ == mo[i as int].1);
                                    assert(pred_answer(predicate, mo[i as int].1, false));
                                }
                                i = i + 1;
                            }
                        }
                        proof {
                            if idx is None {
                                assert(forall|j: int| 0 <= j < mo.len() ==> pred_answer(
                                    predicate,
                                    (#[trigger] mo[j]).1,
                                    false,
                                ));
                            }
                        }
                    },
                    _ => {},
                }
                if in_array {
                    match idx {
                        Some(i) => {
                            match <Vec<JsonValue> as InnerAsRefMut>::json_value_as_mut(v) {
                                Some(a2) => {
                                    proof {
                                        assert(cur == SpecValue::Array(crate::value::arr_model(
                                            a2@,
                                        )));
                                        assert(crate::value::arr_model(a2@) == ma);
                                        assert(a2@[i as int]@ == ma[i as int]);
                                        assert(exists|ii: int|
                                            #![trigger ma[ii]]
                                            {
                                                &&& 0 <= ii < ma.len()
                                                &&& a2@[i as int]@ == ma[ii]
                                                &&& pred_answer(predicate, ma[ii], true)
                                                &&& forall|j: int| 0 <= j < ii ==> pred_answer(
                                                    predicate,
                                                    #[trigger] ma[j],
                                                    false,
                                                )
                                            });
                                        assert(self.spec_sel() matches Some(SpecValue::Array(aa))
                                            && aa == ma);
                                    }
                                    JsonQueryMut(Some(&mut a2[i]))
                                },
                                None => vstd::pervasive::unreached(),
                            }
                        },
                        None => JsonQueryMut(None),
                    }
                } else if in_object {
                    match idx {
                        Some(i) => {
                            match <Vec<(String, JsonValue)> as InnerAsRefMut>::json_value_as_mut(
                                v,
                            ) {
                                Some(o2) => {
                                    proof {
                                        assert(cur == SpecValue::Object(crate::value::obj_model(
                                            o2@,
                                        )));
                                        assert(crate::value::obj_model(o2@) == mo);
                                        assert(o2@[i as int].1@ == mo[i as int].1);
                                        assert(exists|ii: int|
                                            #![trigger mo[ii]]
                                            {
                                                &&& 0 <= ii < mo.len()
                                                &&& o2@[i as int].1@ == mo[ii].1
                                                &&& pred_answer(predicate, mo[ii].1, true)
                                                &&& forall|j: int| 0 <= j < ii ==> pred_answer(
                                                    predicate,
                                                    (#[trigger] mo[j]).1,
                                                    false,
                                                )
                                            });
                                        assert(self.spec_sel() matches Some(SpecValue::Object(
                                            mm,
                                        )) && mm == mo);
                                    }
                                    let p = &mut o2[i];
                                    JsonQueryMut(Some(&mut p.1))
                                },
                                None => vstd::pervasive::unreached(),
                            }
                        },
                        None => JsonQueryMut(None),
                    }
                } else {
                    JsonQueryMut(None)
                }
            },
            None => JsonQueryMut(None),
        }
    }

    /// The selected value, or nothing, consuming the query.
    pub fn find(self) -> (r: Option<&'val mut JsonValue>)
        ensures
            match r {
                Some(v) => self.spec_sel() == Some((*v)@),
                None => self.spec_sel() is None,
            },
    {
        self.0
    }

    /// Whether a value is selected.
    pub fn is_found(&self) -> (r: bool)
        ensures
            r == (self.spec_sel() is Some),
    {
        match self.0 {
            Some(_) => true,
            None => false,
        }
    }

    /// The selected value's payload, if one is selected and its tag
    /// matches the requested type, consuming the query.
    pub fn get<T: InnerAsRefMut>(self) -> (r: Option<&'val mut T>)
        ensures
            match r {
                Some(x) => self.spec_sel() matches Some(m) && T::wraps_mut(*x, m),
                None => self.spec_sel() is None || (self.spec_sel() matches Some(m)
                    && !T::can_wrap_mut(m)),
            },
    {
        match self.0 {
            Some(v) => T::json_value_as_mut(v),
            None => None,
        }
    }
}

impl JsonValue {
    /// A panic-safe read-only query over this value.
    pub fn query(&self) -> (r: JsonQuery<'_>)
        ensures
            r.spec_sel() == Some(self@),
    {
        JsonQuery::new(self)
    }

    /// A panic-safe mutating query over this value.
    pub fn query_mut(&mut self) -> (r: JsonQueryMut<'_>)
        ensures
            r.spec_sel() == Some(old(self)@),
    {
        JsonQueryMut::new(self)
    }
}

} // verus!
