use vstd::prelude::*;

verus! {

broadcast use vstd::std_specs::vec::group_vec_axioms;

/// A configuration value: the tree that a source document is made of and
/// that resolution produces.
#[derive(Debug, PartialEq)]
pub enum TomlValue {
    String(String),
    Integer(i64),
    /// A floating-point number, held as its canonical decimal text.
    Float(String),
    Boolean(bool),
    /// A date-time, held as its canonical text.
    Datetime(String),
    Array(Vec<TomlValue>),
    /// A nested table: its entries in document order.
    Table(Vec<(String, TomlValue)>),
}

/// The mathematical model of a `TomlValue`.
pub enum Data {
    Str(Seq<char>),
    Int(i64),
    Float(Seq<char>),
    Bool(bool),
    Datetime(Seq<char>),
    Array(Seq<Data>),
    Table(Seq<(Seq<char>, Data)>),
}

impl View for TomlValue {
    type V = Data;

    open spec fn view(&self) -> Data {
        data_of(*self)
    }
}

/// The model of a value, node for node.
pub open spec fn data_of(v: TomlValue) -> Data
    decreases v,
{
        match v {
            TomlValue::String(s) => Data::Str(s@),
            TomlValue::Integer(i) => Data::Int(i),
            TomlValue::Float(t) => Data::Float(t@),
            TomlValue::Boolean(b) => Data::Bool(b),
            TomlValue::Datetime(t) => Data::Datetime(t@),
            TomlValue::Array(items) => Data::Array(items_view(items@)),
            TomlValue::Table(entries) => Data::Table(entries_view(entries@)),
        }
}

/// The models of a sequence of values, element by element.
pub open spec fn items_view(s: Seq<TomlValue>) -> Seq<Data>
    decreases s,
{
    if s.len() == 0 {
        Seq::empty()
    } else {
        items_view(s.drop_last()).push(data_of(s.last()))
    }
}

/// The models of a sequence of table entries: keys as text, values as models.
pub open spec fn entries_view(s: Seq<(String, TomlValue)>) -> Seq<(Seq<char>, Data)>
    decreases s,
{
    if s.len() == 0 {
        Seq::empty()
    } else {
        entries_view(s.drop_last()).push((s.last().0@, data_of(s.last().1)))
    }
}

pub proof fn lemma_items_view(s: Seq<TomlValue>)
    ensures
        items_view(s).len() == s.len(),
        forall|k: int| 0 <= k < s.len() ==> #[trigger] items_view(s)[k] == s[k]@,
    decreases s.len(),
{
    if s.len() > 0 {
        lemma_items_view(s.drop_last());
    }
}

pub proof fn lemma_entries_view(s: Seq<(String, TomlValue)>)
    ensures
        entries_view(s).len() == s.len(),
        forall|k: int|
            0 <= k < s.len() ==> #[trigger] entries_view(s)[k] == (s[k].0@, s[k].1@),
    decreases s.len(),
{
    if s.len() > 0 {
        lemma_entries_view(s.drop_last());
    }
}

impl TomlValue {
    /// A copy of this value, node for node.
    pub fn deep_clone(&self) -> (r: TomlValue)
        ensures
            r@ == self@,
        decreases self,
    {
        match self {
            TomlValue::String(s) => TomlValue::String(s.clone()),
            TomlValue::Integer(i) => TomlValue::Integer(*i),
            TomlValue::Float(t) => TomlValue::Float(t.clone()),
            TomlValue::Boolean(b) => TomlValue::Boolean(*b),
            TomlValue::Datetime(t) => TomlValue::Datetime(t.clone()),
            TomlValue::Array(items) => {
                let mut out: Vec<TomlValue> = Vec::new();
                let mut i: usize = 0;
                while i < items.len()
                    invariant
                        *self == TomlValue::Array(*items),
                        i <= items@.len(),
                        out@.len() == i,
                        forall|j: int| 0 <= j < i ==> #[trigger] out@[j]@ == items@[j]@,
                    decreases items@.len() - i,
                {
                    proof {
                        assert(decreases_to!(*self => self->Array_0));
                        assert(decreases_to!(*items => items@));
                        assert(decreases_to!(items@ => items@[i as int]));
                    }
                    let c = items[i].deep_clone();
                    out.push(c);
                    i += 1;
                }
                let r = TomlValue::Array(out);
                proof {
                    lemma_items_view(out@);
                    lemma_items_view(items@);
                    assert(items_view(out@) =~= items_view(items@));
                }
                r
            },
            TomlValue::Table(entries) => {
                let mut out: Vec<(String, TomlValue)> = Vec::new();
                let mut i: usize = 0;
                while i < entries.len()
                    invariant
                        *self == TomlValue::Table(*entries),
                        i <= entries@.len(),
                        out@.len() == i,
                        forall|j: int|
                            0 <= j < i ==> #[trigger] out@[j].0@ == entries@[j].0@ && out@[j].1@
                                == entries@[j].1@,
                    decreases entries@.len() - i,
                {
                    proof {
                        assert(decreases_to!(*self => self->Table_0));
                        assert(decreases_to!(*entries => entries@));
                        assert(decreases_to!(entries@ => entries@[i as int]));
                        assert(decreases_to!(entries@[i as int] => entries@[i as int].1));
                    }
                    let c = entries[i].1.deep_clone();
                    out.push((entries[i].0.clone(), c));
                    i += 1;
                }
                let r = TomlValue::Table(out);
                proof {
                    lemma_entries_view(out@);
                    lemma_entries_view(entries@);
                    assert(entries_view(out@) =~= entries_view(entries@));
                }
                r
            },
        }
    }
}


/// The value stored under `k` in a table model; where a key repeats, the
/// later entry wins.
pub open spec fn lookup(entries: Seq<(Seq<char>, Data)>, k: Seq<char>) -> Option<Data>
    decreases entries.len(),
{
    if entries.len() == 0 {
        None
    } else if entries.last().0 == k {
        Some(entries.last().1)
    } else {
        lookup(entries.drop_last(), k)
    }
}

/// The model of a value looked up by key, when the value is a table.
pub open spec fn field(v: Data, k: Seq<char>) -> Option<Data> {
    match v {
        Data::Table(entries) => lookup(entries, k),
        _ => None,
    }
}

impl TomlValue {
    pub fn as_str(&self) -> (r: Option<&str>)
        ensures
            r is Some <==> self@ is Str,
            r matches Some(s) ==> self@ == Data::Str(s@),
    {
        match self {
            TomlValue::String(s) => Some(s.as_str()),
            _ => None,
        }
    }

    pub fn as_integer(&self) -> (r: Option<i64>)
        ensures
            r is Some <==> self@ is Int,
            r matches Some(i) ==> self@ == Data::Int(i),
    {
        match self {
            TomlValue::Integer(i) => Some(*i),
            _ => None,
        }
    }

    pub fn as_bool(&self) -> (r: Option<bool>)
        ensures
            r is Some <==> self@ is Bool,
            r matches Some(b) ==> self@ == Data::Bool(b),
    {
        match self {
            TomlValue::Boolean(b) => Some(*b),
            _ => None,
        }
    }

    pub fn as_array(&self) -> (r: Option<&Vec<TomlValue>>)
        ensures
            r is Some <==> self@ is Array,
            r matches Some(items) ==> self@ == Data::Array(items_view(items@)),
    {
        match self {
            TomlValue::Array(items) => Some(items),
            _ => None,
        }
    }

    pub fn as_table(&self) -> (r: Option<&Vec<(String, TomlValue)>>)
        ensures
            r is Some <==> self@ is Table,
            r matches Some(entries) ==> self@ == Data::Table(entries_view(entries@)),
    {
        match self {
            TomlValue::Table(entries) => Some(entries),
            _ => None,
        }
    }

    /// The value under `key`, when this value is a table that has it.
    pub fn get(&self, key: &str) -> (r: Option<&TomlValue>)
        ensures
            r is Some <==> field(self@, key@) is Some,
            r matches Some(v) ==> field(self@, key@) == Some(v@),
    {
        match self {
            TomlValue::Table(entries) => {
                let k = key.to_string();
                let mut i: usize = entries.len();
                proof {
                    lemma_entries_view(entries@);
                    assert(entries_view(entries@).subrange(0, i as int) =~= entries_view(entries@));
                }
                while i > 0
                    invariant
                        *self == TomlValue::Table(*entries),
                        k@ == key@,
                        i <= entries@.len(),
                        entries_view(entries@).len() == entries@.len(),
                        forall|j: int|
                            0 <= j < entries@.len() ==> #[trigger] entries_view(entries@)[j] == (
                                entries@[j].0@,
                                entries@[j].1@,
                            ),
                        lookup(entries_view(entries@), k@) == lookup(
                            entries_view(entries@).subrange(0, i as int),
                            k@,
                        ),
                    decreases i,
                {
                    let ghost sub = entries_view(entries@).subrange(0, i as int);
                    assert(sub.drop_last() =~= entries_view(entries@).subrange(0, i - 1));
                    if entries[i - 1].0 == k {
                        assert(sub.last() == entries_view(entries@)[i - 1]);
                        return Some(&entries[i - 1].1);
                    }
                    i -= 1;
                }
                assert(entries_view(entries@).subrange(0, 0) =~= Seq::empty());
                None
            },
            _ => None,
        }
    }
}

/// The map that a sequence of entries describes; where a key repeats, the
/// later entry wins.
pub open spec fn map_of(s: Seq<(String, TomlValue)>) -> Map<Seq<char>, Data>
    decreases s.len(),
{
    if s.len() == 0 {
        Map::empty()
    } else {
        map_of(s.drop_last()).insert(s.last().0@, s.last().1@)
    }
}

/// No key occurs twice.
pub open spec fn keys_unique(s: Seq<(String, TomlValue)>) -> bool {
    forall|i: int, j: int| 0 <= i < j < s.len() ==> s[i].0@ != s[j].0@
}

pub proof fn lemma_map_of_contains(s: Seq<(String, TomlValue)>, k: Seq<char>)
    ensures
        map_of(s).contains_key(k) <==> exists|i: int| 0 <= i < s.len() && s[i].0@ == k,
    decreases s.len(),
{
    if s.len() > 0 {
        lemma_map_of_contains(s.drop_last(), k);
        if map_of(s.drop_last()).contains_key(k) {
            let i = choose|i: int| 0 <= i < s.drop_last().len() && s.drop_last()[i].0@ == k;
            assert(s[i].0@ == k);
        }
        if exists|i: int| 0 <= i < s.len() && s[i].0@ == k {
            let i = choose|i: int| 0 <= i < s.len() && s[i].0@ == k;
            if i < s.len() - 1 {
                assert(s.drop_last()[i].0@ == k);
            }
        }
    }
}

pub proof fn lemma_map_of_index(s: Seq<(String, TomlValue)>, i: int)
    requires
        keys_unique(s),
        0 <= i < s.len(),
    ensures
        map_of(s).contains_key(s[i].0@),
        map_of(s)[s[i].0@] == s[i].1@,
    decreases s.len(),
{
    if i < s.len() - 1 {
        assert(keys_unique(s.drop_last()));
        lemma_map_of_index(s.drop_last(), i);
    }
}

pub proof fn lemma_map_of_finite(s: Seq<(String, TomlValue)>)
    ensures
        map_of(s).dom().finite(),
        keys_unique(s) ==> map_of(s).dom().len() == s.len(),
    decreases s.len(),
{
    if s.len() > 0 {
        lemma_map_of_finite(s.drop_last());
        if keys_unique(s) {
            assert(keys_unique(s.drop_last()));
            lemma_map_of_contains(s.drop_last(), s.last().0@);
        }
    }
}

pub proof fn lemma_map_of_update(s: Seq<(String, TomlValue)>, i: int, e: (String, TomlValue))
    requires
        keys_unique(s),
        0 <= i < s.len(),
        e.0@ == s[i].0@,
    ensures
        keys_unique(s.update(i, e)),
        map_of(s.update(i, e)) == map_of(s).insert(e.0@, e.1@),
    decreases s.len(),
{
    let t = s.update(i, e);
    if i == s.len() - 1 {
        assert(t.drop_last() =~= s.drop_last());
        assert(map_of(t) =~= map_of(s).insert(e.0@, e.1@));
    } else {
        assert(keys_unique(s.drop_last()));
        lemma_map_of_update(s.drop_last(), i, e);
        assert(t.drop_last() =~= s.drop_last().update(i, e));
        assert(map_of(t) =~= map_of(s).insert(e.0@, e.1@));
    }
}

/// A mapping from keys to values with unique keys: a table's working values
/// and the values that a resolution has collected.
#[derive(Debug)]
pub struct ValueMap {
    pub(crate) entries: Vec<(String, TomlValue)>,
}

impl View for ValueMap {
    type V = Map<Seq<char>, Data>;

    closed spec fn view(&self) -> Map<Seq<char>, Data> {
        map_of(self.entries@)
    }
}

impl ValueMap {
    /// Well-formed: no key occurs twice.
    pub closed spec fn wf(&self) -> bool {
        keys_unique(self.entries@)
    }

    pub fn new() -> (r: ValueMap)
        ensures
            r.wf(),
            r@ == Map::<Seq<char>, Data>::empty(),
    {
        ValueMap { entries: Vec::new() }
    }

    pub fn len(&self) -> (r: usize)
        requires
            self.wf(),
        ensures
            r == self@.len(),
            self@.dom().finite(),
    {
        proof {
            lemma_map_of_finite(self.entries@);
        }
        self.entries.len()
    }

    fn find(&self, key: &str) -> (r: Option<usize>)
        ensures
            r matches Some(i) ==> i < self.entries@.len() && self.entries@[i as int].0@ == key@,
            r is None ==> forall|i: int|
                0 <= i < self.entries@.len() ==> self.entries@[i].0@ != key@,
    {
        let k = key.to_string();
        let mut i: usize = 0;
        while i < self.entries.len()
            invariant
                i <= self.entries@.len(),
                k@ == key@,
                forall|j: int| 0 <= j < i ==> self.entries@[j].0@ != key@,
            decreases self.entries@.len() - i,
        {
            if self.entries[i].0 == k {
                return Some(i);
            }
            i += 1;
        }
        None
    }

    pub fn contains_key(&self, key: &str) -> (r: bool)
        ensures
            r == self@.contains_key(key@),
    {
        proof {
            lemma_map_of_contains(self.entries@, key@);
        }
        self.find(key).is_some()
    }

    pub fn get(&self, key: &str) -> (r: Option<&TomlValue>)
        requires
            self.wf(),
        ensures
            r is Some <==> self@.contains_key(key@),
            r matches Some(v) ==> self@[key@] == v@,
    {
        proof {
            lemma_map_of_contains(self.entries@, key@);
        }
        match self.find(key) {
            Some(i) => {
                proof {
                    lemma_map_of_index(self.entries@, i as int);
                }
                Some(&self.entries[i].1)
            },
            None => None,
        }
    }

    pub fn insert(&mut self, key: String, value: TomlValue)
        requires
            old(self).wf(),
        ensures
            final(self).wf(),
            final(self)@ == old(self)@.insert(key@, value@),
    {
        proof {
            lemma_map_of_contains(self.entries@, key@);
        }
        match self.find(key.as_str()) {
            Some(i) => {
                proof {
                    lemma_map_of_update(self.entries@, i as int, (key, value));
                }
                self.entries.set(i, (key, value));
            },
            None => {
                proof {
                    assert(self.entries@.push((key, value)).drop_last() =~= self.entries@);
                    assert(keys_unique(self.entries@.push((key, value))));
                }
                self.entries.push((key, value));
            },
        }
    }

    /// Copies every entry of `other` into this map, replacing values under
    /// keys that both hold.
    pub fn add_all(&mut self, other: &ValueMap)
        requires
            old(self).wf(),
            other.wf(),
        ensures
            final(self).wf(),
            final(self)@ == old(self)@.union_prefer_right(other@),
    {
        let mut i: usize = 0;
        while i < other.entries.len()
            invariant
                i <= other.entries@.len(),
                keys_unique(other.entries@),
                self.wf(),
                self@ == old(self)@.union_prefer_right(map_of(other.entries@.subrange(0, i as int))),
            decreases other.entries@.len() - i,
        {
            let k = other.entries[i].0.clone();
            let v = other.entries[i].1.deep_clone();
            self.insert(k, v);
            proof {
                let sub = other.entries@.subrange(0, i + 1);
                assert(sub.drop_last() =~= other.entries@.subrange(0, i as int));
                assert(self@ =~= old(self)@.union_prefer_right(map_of(sub)));
            }
            i += 1;
        }
        assert(other.entries@.subrange(0, other.entries@.len() as int) =~= other.entries@);
    }

    /// The keys, in the order in which they were first inserted.
    pub fn keys(&self) -> (r: Vec<String>)
        requires
            self.wf(),
        ensures
            r@.len() == self@.len(),
            forall|i: int| 0 <= i < r@.len() ==> self@.contains_key(#[trigger] r@[i]@),
            forall|k: Seq<char>| self@.contains_key(k) ==> exists|i: int| 0 <= i < r@.len() && #[trigger] r@[i]@ == k,
    {
        proof {
            lemma_map_of_finite(self.entries@);
        }
        let mut out: Vec<String> = Vec::new();
        let mut i: usize = 0;
        while i < self.entries.len()
            invariant
                i <= self.entries@.len(),
                out@.len() == i,
                forall|j: int| 0 <= j < i ==> #[trigger] out@[j]@ == self.entries@[j].0@,
            decreases self.entries@.len() - i,
        {
            out.push(self.entries[i].0.clone());
            i += 1;
        }
        proof {
            assert forall|j: int| 0 <= j < out@.len() implies self@.contains_key(#[trigger] out@[j]@) by {
                lemma_map_of_contains(self.entries@, out@[j]@);
            }
            assert forall|k: Seq<char>| self@.contains_key(k) implies exists|j: int| 0 <= j < out@.len() && #[trigger] out@[j]@ == k by {
                lemma_map_of_contains(self.entries@, k);
                let j = choose|j: int| 0 <= j < self.entries@.len() && self.entries@[j].0@ == k;
                assert(out@[j]@ == k);
            }
        }
        out
    }
}

} // verus!
