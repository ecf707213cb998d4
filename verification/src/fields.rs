//! The parse result that metadata extraction reads and rewrites: a map from
//! field names to values, and the records of where earlier handlers matched.
use crate::text::{list_contains, view_strings};
use vstd::prelude::*;

verus! {

#[verifier::external_type_specification]
#[verifier::external_body]
pub struct ExJsonValue(serde_json::Value);

/// One element of a list field.
pub enum Item {
    Text(String),
    /// Any other JSON value, carried through untouched.
    Other(serde_json::Value),
}

/// The value of one result field.
pub enum FieldValue {
    Text(String),
    Flag(bool),
    List(Vec<Item>),
    /// Any other JSON value, carried through untouched.
    Other(serde_json::Value),
}

/// The model of a list element.
pub enum ItemView {
    Text(Seq<char>),
    Other(serde_json::Value),
}

/// The model of a field value.
pub enum FieldView {
    Text(Seq<char>),
    Flag(bool),
    List(Seq<ItemView>),
    Other(serde_json::Value),
}

pub open spec fn item_view(i: Item) -> ItemView {
    match i {
        Item::Text(s) => ItemView::Text(s@),
        Item::Other(v) => ItemView::Other(v),
    }
}

impl View for FieldValue {
    type V = FieldView;

    open spec fn view(&self) -> FieldView {
        match self {
            FieldValue::Text(s) => FieldView::Text(s@),
            FieldValue::Flag(b) => FieldView::Flag(*b),
            FieldValue::List(v) => FieldView::List(v@.map_values(|i: Item| item_view(i))),
            FieldValue::Other(v) => FieldView::Other(*v),
        }
    }
}

/// The text elements of a list, in order.
pub open spec fn text_items(items: Seq<ItemView>) -> Seq<Seq<char>>
    decreases items.len(),
{
    if items.len() == 0 {
        Seq::empty()
    } else {
        let r = text_items(items.drop_last());
        match items.last() {
            ItemView::Text(s) => r.push(s),
            ItemView::Other(_) => r,
        }
    }
}

/// The strings of a field: the text elements when it is a list, else none.
pub open spec fn field_strings(v: Option<FieldView>) -> Seq<Seq<char>> {
    match v {
        Some(FieldView::List(items)) => text_items(items),
        _ => Seq::empty(),
    }
}

/// The text of a field when it is a string.
pub open spec fn field_text(v: Option<FieldView>) -> Option<Seq<char>> {
    match v {
        Some(FieldView::Text(s)) => Some(s),
        _ => None,
    }
}

/// `values` with every repeat of an earlier value left out.
pub open spec fn dedup(values: Seq<Seq<char>>) -> Seq<Seq<char>>
    decreases values.len(),
{
    if values.len() == 0 {
        Seq::empty()
    } else {
        let r = dedup(values.drop_last());
        if r.contains(values.last()) {
            r
        } else {
            r.push(values.last())
        }
    }
}

/// The list field holding exactly the distinct `values`, first occurrences
/// first.
pub open spec fn string_list(values: Seq<Seq<char>>) -> FieldView {
    FieldView::List(dedup(values).map_values(|s: Seq<char>| ItemView::Text(s)))
}

/// The record of one earlier match in the title: which field it filled, its
/// byte range, and its value when that value is a string.
pub struct Record {
    pub field: String,
    pub start: usize,
    pub end: usize,
    pub value: Option<String>,
}

/// The parse result: fields by name, each name at most once.
pub struct Fields {
    entries: Vec<(String, FieldValue)>,
}

pub open spec fn distinct_keys(e: Seq<(String, FieldValue)>) -> bool {
    forall|i: int, j: int|
        0 <= i < e.len() && 0 <= j < e.len() && i != j ==> (#[trigger] e[i]).0@ != (
        #[trigger] e[j]).0@
}

pub open spec fn entries_map(e: Seq<(String, FieldValue)>) -> Map<Seq<char>, FieldView>
    decreases e.len(),
{
    if e.len() == 0 {
        Map::empty()
    } else {
        entries_map(e.drop_last()).insert(e.last().0@, e.last().1@)
    }
}

proof fn entries_map_shape(e: Seq<(String, FieldValue)>)
    requires
        distinct_keys(e),
    ensures
        forall|k: Seq<char>|
            entries_map(e).contains_key(k) <==> exists|i: int|
                0 <= i < e.len() && (#[trigger] e[i]).0@ == k,
        forall|i: int| 0 <= i < e.len() ==> entries_map(e)[(#[trigger] e[i]).0@] == e[i].1@,
    decreases e.len(),
{
    if e.len() > 0 {
        let p = e.drop_last();
        assert(distinct_keys(p));
        entries_map_shape(p);
        assert forall|k: Seq<char>|
            entries_map(e).contains_key(k) <==> exists|i: int|
                0 <= i < e.len() && (#[trigger] e[i]).0@ == k by {
            if entries_map(e).contains_key(k) && k != e.last().0@ {
                assert(entries_map(p).contains_key(k));
                let i = choose|i: int| 0 <= i < p.len() && (#[trigger] p[i]).0@ == k;
                assert(e[i] == p[i]);
            }
            if exists|i: int| 0 <= i < e.len() && (#[trigger] e[i]).0@ == k {
                let i = choose|i: int| 0 <= i < e.len() && (#[trigger] e[i]).0@ == k;
                if i < e.len() - 1 {
                    assert(p[i] == e[i]);
                }
            }
        }
        assert forall|i: int| 0 <= i < e.len() implies entries_map(e)[(#[trigger] e[i]).0@]
            == e[i].1@ by {
            if i < e.len() - 1 {
                assert(p[i] == e[i]);
                assert(e[i].0@ != e[e.len() - 1].0@);
            }
        }
    }
}

proof fn entries_map_equal(e1: Seq<(String, FieldValue)>, e2: Seq<(String, FieldValue)>, m: Map<
    Seq<char>,
    FieldView,
>)
    requires
        distinct_keys(e2),
        forall|k: Seq<char>|
            m.contains_key(k) <==> exists|i: int| 0 <= i < e2.len() && (#[trigger] e2[i]).0@ == k,
        forall|i: int| 0 <= i < e2.len() ==> m[(#[trigger] e2[i]).0@] == e2[i].1@,
        e1 == e2,
    ensures
        entries_map(e1) == m,
{
    entries_map_shape(e2);
    assert(entries_map(e1) =~= m);
}

impl View for Fields {
    type V = Map<Seq<char>, FieldView>;

    closed spec fn view(&self) -> Map<Seq<char>, FieldView> {
        entries_map(self.entries@)
    }
}

impl Fields {
    #[verifier::type_invariant]
    spec fn keys_distinct(self) -> bool {
        distinct_keys(self.entries@)
    }

    /// No fields at all.
    pub fn new() -> (r: Fields)
        ensures
            r@ == Map::<Seq<char>, FieldView>::empty(),
    {
        Fields { entries: Vec::new() }
    }

    /// The fields with their values, each name once, in no particular order.
    pub fn entries(&self) -> (r: &Vec<(String, FieldValue)>)
        ensures
            distinct_keys(r@),
            entries_map(r@) == self@,
    {
        proof {
            use_type_invariant(self);
        }
        &self.entries
    }

    fn position(&self, key: &str) -> (r: Option<usize>)
        ensures
            match r {
                Some(i) => i < self.entries@.len() && self.entries@[i as int].0@ == key@,
                None => forall|i: int|
                    0 <= i < self.entries@.len() ==> (#[trigger] self.entries@[i]).0@ != key@,
            },
    {
        let k = key.to_owned();
        let mut i: usize = 0;
        while i < self.entries.len()
            invariant
                i <= self.entries@.len(),
                k@ == key@,
                forall|j: int| 0 <= j < i ==> (#[trigger] self.entries@[j]).0@ != key@,
            decreases self.entries@.len() - i,
        {
            if self.entries[i].0 == k {
                return Some(i);
            }
            i = i + 1;
        }
        None
    }

    /// The value of field `key`.
    pub fn get(&self, key: &str) -> (r: Option<&FieldValue>)
        ensures
            match r {
                Some(v) => self@.contains_key(key@) && self@[key@] == v@,
                None => !self@.contains_key(key@),
            },
    {
        proof {
            use_type_invariant(self);
            entries_map_shape(self.entries@);
        }
        match self.position(key) {
            Some(i) => Some(&self.entries[i].1),
            None => None,
        }
    }

    /// Sets field `key` to `value`.
    pub fn insert(&mut self, key: &str, value: FieldValue)
        ensures
            final(self)@ == old(self)@.insert(key@, value@),
    {
        proof {
            use_type_invariant(&*self);
            entries_map_shape(self.entries@);
        }
        let ghost old_e = self.entries@;
        let ghost m = entries_map(old_e).insert(key@, value@);
        match self.position(key) {
            Some(i) => {
                let k = key.to_owned();
                let ghost new_e = old_e.update(i as int, (k, value));
                assert(distinct_keys(new_e));
                proof {
                    assert forall|kk: Seq<char>|
                        m.contains_key(kk) <==> exists|j: int|
                            0 <= j < new_e.len() && (#[trigger] new_e[j]).0@ == kk by {
                        if kk == key@ {
                            assert(new_e[i as int].0@ == key@);
                        }
                        if m.contains_key(kk) && kk != key@ {
                            assert(entries_map(old_e).contains_key(kk));
                            let j = choose|j: int|
                                0 <= j < old_e.len() && (#[trigger] old_e[j]).0@ == kk;
                            assert(new_e[j] == old_e[j]);
                        }
                        if exists|j: int| 0 <= j < new_e.len() && (#[trigger] new_e[j]).0@ == kk {
                            let j = choose|j: int|
                                0 <= j < new_e.len() && (#[trigger] new_e[j]).0@ == kk;
                            if j != i {
                                assert(new_e[j] == old_e[j]);
                            }
                        }
                    }
                    assert forall|j: int| 0 <= j < new_e.len() implies m[(#[trigger] new_e[j]).0@]
                        == new_e[j].1@ by {
                        if j != i {
                            assert(new_e[j] == old_e[j]);
                            assert(old_e[j].0@ != old_e[i as int].0@);
                        }
                    }
                }
                let mut e: Vec<(String, FieldValue)> = Vec::new();
                std::mem::swap(&mut e, &mut self.entries);
                e.set(i, (k, value));
                proof {
                    entries_map_equal(e@, new_e, m);
                }
                self.entries = e;
            },
            None => {
                let k = key.to_owned();
                let mut e: Vec<(String, FieldValue)> = Vec::new();
                std::mem::swap(&mut e, &mut self.entries);
                e.push((k, value));
                assert(e@.drop_last() =~= old_e);
                assert(distinct_keys(e@));
                self.entries = e;
            },
        }
    }

    /// Removes field `key`, if present.
    pub fn remove(&mut self, key: &str)
        ensures
            final(self)@ == old(self)@.remove(key@),
    {
        proof {
            use_type_invariant(&*self);
            entries_map_shape(self.entries@);
        }
        let ghost old_e = self.entries@;
        let ghost m = entries_map(old_e).remove(key@);
        match self.position(key) {
            Some(i) => {
                let ghost new_e = old_e.remove(i as int);
                assert(distinct_keys(new_e));
                proof {
                    assert forall|kk: Seq<char>|
                        m.contains_key(kk) <==> exists|j: int|
                            0 <= j < new_e.len() && (#[trigger] new_e[j]).0@ == kk by {
                        if m.contains_key(kk) {
                            assert(entries_map(old_e).contains_key(kk));
                            let j = choose|j: int|
                                0 <= j < old_e.len() && (#[trigger] old_e[j]).0@ == kk;
                            if j < i {
                                assert(new_e[j] == old_e[j]);
                            } else {
                                assert(j != i);
                                assert(new_e[j - 1] == old_e[j]);
                            }
                        }
                        if exists|j: int| 0 <= j < new_e.len() && (#[trigger] new_e[j]).0@ == kk {
                            let j = choose|j: int|
                                0 <= j < new_e.len() && (#[trigger] new_e[j]).0@ == kk;
                            if j < i {
                                assert(new_e[j] == old_e[j]);
                                assert(old_e[j].0@ != old_e[i as int].0@);
                            } else {
                                assert(new_e[j] == old_e[j + 1]);
                                assert(old_e[j + 1].0@ != old_e[i as int].0@);
                            }
                        }
                    }
                    assert forall|j: int| 0 <= j < new_e.len() implies m[(#[trigger] new_e[j]).0@]
                        == new_e[j].1@ by {
                        if j < i {
                            assert(new_e[j] == old_e[j]);
                            assert(old_e[j].0@ != old_e[i as int].0@);
                        } else {
                            assert(new_e[j] == old_e[j + 1]);
                            assert(old_e[j + 1].0@ != old_e[i as int].0@);
                        }
                    }
                }
                let mut e: Vec<(String, FieldValue)> = Vec::new();
                std::mem::swap(&mut e, &mut self.entries);
                e.remove(i);
                proof {
                    entries_map_equal(e@, new_e, m);
                }
                self.entries = e;
            },
            None => {
                assert(m =~= entries_map(old_e));
            },
        }
    }
}

impl FieldValue {
    /// The text of a string value.
    pub fn as_text(&self) -> (r: Option<&String>)
        ensures
            view_opt_ref(r) == field_text(Some(self@)),
    {
        match self {
            FieldValue::Text(s) => Some(s),
            _ => None,
        }
    }
}

pub open spec fn view_opt_ref(s: Option<&String>) -> Option<Seq<char>> {
    match s {
        Some(s) => Some(s@),
        None => None,
    }
}

pub open spec fn view_opt_field(v: Option<&FieldValue>) -> Option<FieldView> {
    match v {
        Some(v) => Some(v@),
        None => None,
    }
}

/// The strings of a field value: the text elements of a list, in order.
pub fn strings(value: Option<&FieldValue>) -> (r: Vec<String>)
    ensures
        view_strings(r@) == field_strings(view_opt_field(value)),
{
    let mut out: Vec<String> = Vec::new();
    if let Some(FieldValue::List(items)) = value {
        let ghost iv = items@.map_values(|i: Item| item_view(i));
        let mut k: usize = 0;
        while k < items.len()
            invariant
                k <= items@.len(),
                iv == items@.map_values(|i: Item| item_view(i)),
                view_strings(out@) == text_items(iv.subrange(0, k as int)),
            decreases items@.len() - k,
        {
            assert(iv.subrange(0, k + 1).drop_last() =~= iv.subrange(0, k as int));
            if let Item::Text(s) = &items[k] {
                out.push(s.clone());
                assert(view_strings(out@) =~= text_items(iv.subrange(0, k + 1)));
            }
            k = k + 1;
        }
        assert(iv.subrange(0, k as int) =~= iv);
    }
    out
}

/// `values` without repeats, first occurrences kept in order.
pub fn unique(values: Vec<String>) -> (r: Vec<String>)
    ensures
        view_strings(r@) == dedup(view_strings(values@)),
{
    let ghost vs = view_strings(values@);
    let mut out: Vec<String> = Vec::new();
    let mut k: usize = 0;
    while k < values.len()
        invariant
            k <= values@.len(),
            vs == view_strings(values@),
            view_strings(out@) == dedup(vs.subrange(0, k as int)),
        decreases values@.len() - k,
    {
        assert(vs.subrange(0, k + 1).drop_last() =~= vs.subrange(0, k as int));
        assert(vs.subrange(0, k + 1).last() == values@[k as int]@);
        if !list_contains(out.as_slice(), values[k].as_str()) {
            out.push(values[k].clone());
            assert(view_strings(out@) =~= dedup(vs.subrange(0, k + 1)));
        }
        k = k + 1;
    }
    assert(vs.subrange(0, k as int) =~= vs);
    out
}

/// Sets `field` to the list of the distinct `values`.
pub fn set_strings(result: &mut Fields, field: &str, values: Vec<String>)
    ensures
        final(result)@ == old(result)@.insert(field@, string_list(view_strings(values@))),
{
    let u = unique(values);
    let ghost uv = view_strings(u@);
    let mut items: Vec<Item> = Vec::new();
    let mut k: usize = 0;
    while k < u.len()
        invariant
            k <= u@.len(),
            uv == view_strings(u@),
            items@.len() == k,
            forall|j: int| 0 <= j < k ==> item_view(#[trigger] items@[j]) == ItemView::Text(uv[j]),
        decreases u@.len() - k,
    {
        items.push(Item::Text(u[k].clone()));
        k = k + 1;
    }
    assert(items@.map_values(|i: Item| item_view(i)) =~= dedup(view_strings(values@)).map_values(
        |s: Seq<char>| ItemView::Text(s),
    ));
    let v = FieldValue::List(items);
    assert(v@ == string_list(view_strings(values@)));
    result.insert(field, v);
}

} // verus!
