use vstd::prelude::*;
use crate::error::SuperTomlError;
use crate::value::{entries_view, field, lemma_entries_view, lookup, Data, TomlValue};

verus! {

/// The entries of the table named `table_name` in a document.
pub fn extract_table(toml_value: &TomlValue, table_name: &str) -> (r: Result<Vec<(String, TomlValue)>, SuperTomlError>)
    ensures
        r matches Ok(entries) ==> field(toml_value@, table_name@) == Some(Data::Table(entries_view(entries@))),
        r is Ok <==> field(toml_value@, table_name@) matches Some(Data::Table(_)),
        !(toml_value@ is Table) ==> (r matches Err(SuperTomlError::InvalidTableType(m)) && m@ == "root"@),
        toml_value@ is Table && field(toml_value@, table_name@) is None ==> (r matches Err(SuperTomlError::TableNotFound(m)) && m@ == table_name@),
        field(toml_value@, table_name@) matches Some(v) && !(v is Table) ==> (r matches Err(SuperTomlError::InvalidTableType(m)) && m@ == table_name@),
{
    if toml_value.as_table().is_none() {
        return Err(SuperTomlError::InvalidTableType("root".to_string()));
    }
    let table = match toml_value.get(table_name) {
        Some(t) => t,
        None => return Err(SuperTomlError::TableNotFound(table_name.to_string())),
    };
    if table.as_table().is_none() {
        return Err(SuperTomlError::InvalidTableType(table_name.to_string()));
    }
    match table.deep_clone() {
        TomlValue::Table(entries) => Ok(entries),
        _ => Err(SuperTomlError::InvalidTableType(table_name.to_string())),
    }
}

/// Plain values that can be read out of a configuration value.
pub trait FromTomlValue: Sized {
    /// Whether `value` holds a value of this type.
    spec fn holds(value: Data) -> bool;

    /// Whether `r` is what `value` holds.
    spec fn read_as(value: Data, r: Self) -> bool;

    fn from_toml_value(value: &TomlValue) -> (r: Option<Self>)
        ensures
            r is Some <==> Self::holds(value@),
            r matches Some(x) ==> Self::read_as(value@, x);
}

impl FromTomlValue for String {
    open spec fn holds(value: Data) -> bool {
        value is Str
    }

    open spec fn read_as(value: Data, r: String) -> bool {
        value == Data::Str(r@)
    }

    fn from_toml_value(value: &TomlValue) -> (r: Option<String>) {
        match value.as_str() {
            Some(s) => Some(s.to_string()),
            None => None,
        }
    }
}

impl FromTomlValue for i64 {
    open spec fn holds(value: Data) -> bool {
        value is Int
    }

    open spec fn read_as(value: Data, r: i64) -> bool {
        value == Data::Int(r)
    }

    fn from_toml_value(value: &TomlValue) -> (r: Option<i64>) {
        value.as_integer()
    }
}

impl FromTomlValue for bool {
    open spec fn holds(value: Data) -> bool {
        value is Bool
    }

    open spec fn read_as(value: Data, r: bool) -> bool {
        value == Data::Bool(r)
    }

    fn from_toml_value(value: &TomlValue) -> (r: Option<bool>) {
        value.as_bool()
    }
}

/// Field access on a table's entries.
pub trait TomlTableExt {
    /// The entries' model.
    spec fn entries_model(&self) -> Seq<(Seq<char>, Data)>;

    /// The field `field_name` read as a `T`; `TableNotFound(field_name)` when
    /// it is missing or of another type.
    fn get_field<T: FromTomlValue>(&self, field_name: &str) -> (r: Result<T, SuperTomlError>)
        ensures
            r is Ok <==> (lookup(self.entries_model(), field_name@) matches Some(v) && T::holds(v)),
            r matches Ok(x) ==> T::read_as(lookup(self.entries_model(), field_name@)->Some_0, x),
            r matches Err(e) ==> (e matches SuperTomlError::TableNotFound(m) && m@ == field_name@);
}

impl TomlTableExt for Vec<(String, TomlValue)> {
    open spec fn entries_model(&self) -> Seq<(Seq<char>, Data)> {
        entries_view(self@)
    }

    fn get_field<T: FromTomlValue>(&self, field_name: &str) -> (r: Result<T, SuperTomlError>) {
        let k = field_name.to_string();
        let mut i: usize = self.len();
        proof {
            lemma_entries_view(self@);
            assert(entries_view(self@).subrange(0, i as int) =~= entries_view(self@));
        }
        while i > 0
            invariant
                k@ == field_name@,
                i <= self@.len(),
                entries_view(self@).len() == self@.len(),
                forall|j: int| 0 <= j < self@.len() ==> #[trigger] entries_view(self@)[j] == (self@[j].0@, self@[j].1@),
                lookup(entries_view(self@), field_name@) == lookup(entries_view(self@).subrange(0, i as int), field_name@),
            decreases i,
        {
            let ghost sub = entries_view(self@).subrange(0, i as int);
            assert(sub.drop_last() =~= entries_view(self@).subrange(0, i - 1));
            if self[i - 1].0 == k {
                assert(sub.last() == entries_view(self@)[i - 1]);
                return match T::from_toml_value(&self[i - 1].1) {
                    Some(x) => Ok(x),
                    None => Err(SuperTomlError::TableNotFound(field_name.to_string())),
                };
            }
            i -= 1;
        }
        assert(entries_view(self@).subrange(0, 0) =~= Seq::empty());
        Err(SuperTomlError::TableNotFound(field_name.to_string()))
    }
}

} // verus!
