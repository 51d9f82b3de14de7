//! A named scalar value with typed readings.
use crate::text::{
    count_char, join, lemma_split_count, lemma_split_join, lemma_split_pieces_free, lower_of,
    parse_bool, parse_integer, parse_integer_exec, same_str, split, split_str, to_lower, trim,
    trim_str, views,
};
use vstd::prelude::*;

verus! {

/// Nanoseconds in one second.
pub const NANOS_PER_SEC: u128 = 1_000_000_000;

/// A named value. The name is the key under which content holds the field.
#[derive(Debug, Clone, Default)]
pub struct Field {
    pub name: String,
    pub value: String,
}

/// The name a field gets from the name it is given: trimmed, then lower-cased.
pub open spec fn normal_name(name: Seq<char>) -> Seq<char> {
    lower_of(trim(name))
}

/// The integer a value reads as, within the range of `i32`.
pub open spec fn int_of(value: Seq<char>) -> Option<int> {
    parse_integer(value, i32::MIN as int, i32::MAX as int)
}

/// The whole seconds since the Unix epoch that a value reads as.
pub open spec fn seconds_of(value: Seq<char>) -> Option<int> {
    parse_integer(value, 0, u64::MAX as int)
}

/// A time read from a value as seconds since the Unix epoch, in nanoseconds, or `fallback` when
/// the value is not such a number.
pub open spec fn time_of(value: Seq<char>, fallback: u128) -> int {
    match seconds_of(value) {
        Some(secs) => secs * NANOS_PER_SEC,
        None => fallback as int,
    }
}

/// The pieces that `to_vec` reads from a value: none holds a comma, there is one more piece than
/// the value has commas, and joined with commas they give back the value.
pub proof fn lemma_to_vec_pieces(value: Seq<char>)
    ensures
        join(split(value, seq![',']), seq![',']) == value,
        split(value, seq![',']).len() == count_char(value, ',') + 1,
        forall|m: int, q: int|
            0 <= m < split(value, seq![',']).len() && 0 <= q < split(value, seq![','])[m].len()
                ==> #[trigger] split(value, seq![','])[m][q] != ',',
{
    assert(value.subrange(0, value.len() as int) =~= value);
    lemma_split_join(value, seq![','], 0);
    lemma_split_count(value, ',', 0);
    lemma_split_pieces_free(value, ',', 0);
}

/// A deep copy of a field.
pub(crate) fn copy_field(f: &Field) -> (r: Field)
    ensures
        r == *f,
{
    Field { name: f.name.clone(), value: f.value.clone() }
}

/// Relies on `SystemTime::elapsed` on the Unix epoch: the current time in nanoseconds since the
/// epoch, or zero for a clock set before it.
#[verifier::external_body]
pub(crate) fn now_nanos() -> (r: u128) {
    match std::time::UNIX_EPOCH.elapsed() {
        Ok(d) => d.as_nanos(),
        Err(_) => 0,
    }
}

impl Field {
    /// A field named `name`, trimmed and lower-cased, holding `value` or the empty string.
    pub fn new(name: &str, value: Option<&str>) -> (r: Field)
        ensures
            r.name@ == normal_name(name@),
            r.value@ == match value {
                Some(v) => v@,
                None => Seq::<char>::empty(),
            },
    {
        let trimmed = trim_str(name);
        let value = match value {
            Some(v) => v.to_owned(),
            None => String::new(),
        };
        Field { name: to_lower(trimmed.as_str()), value }
    }

    pub fn name(&self) -> (r: &str)
        ensures
            r@ == self.name@,
    {
        self.name.as_str()
    }

    pub fn value(&self) -> (r: &str)
        ensures
            r@ == self.value@,
    {
        self.value.as_str()
    }

    /// Renames the field to `name` as given.
    pub fn set_name(&mut self, name: &str)
        ensures
            final(self).name@ == name@,
            final(self).value == old(self).value,
    {
        self.name = name.to_owned();
    }

    pub fn set_value(&mut self, value: &str)
        ensures
            final(self).value@ == value@,
            final(self).name == old(self).name,
    {
        self.value = value.to_owned();
    }

    /// The value read as an `i32`; `None` when it is not one.
    pub fn to_int(&self) -> (r: Option<i32>)
        ensures
            match r {
                Some(v) => int_of(self.value@) == Some(v as int),
                None => int_of(self.value@) is None,
            },
    {
        match parse_integer_exec(self.value.as_str(), 2147483648, 2147483647) {
            Some(v) => Some(v as i32),
            None => None,
        }
    }

    /// The value read as a `bool` (`true` or `false`); `None` when it is neither.
    pub fn to_bool(&self) -> (r: Option<bool>)
        ensures
            r == parse_bool(self.value@),
    {
        proof {
            reveal_strlit("true");
            reveal_strlit("false");
        }
        if same_str(self.value.as_str(), "true") {
            assert("true"@ =~= seq!['t', 'r', 'u', 'e']);
            Some(true)
        } else if same_str(self.value.as_str(), "false") {
            assert("false"@ =~= seq!['f', 'a', 'l', 's', 'e']);
            Some(false)
        } else {
            assert("true"@ =~= seq!['t', 'r', 'u', 'e']);
            assert("false"@ =~= seq!['f', 'a', 'l', 's', 'e']);
            None
        }
    }

    pub fn to_string(&self) -> (r: String)
        ensures
            r@ == self.value@,
    {
        self.value.clone()
    }

    /// The value split at each comma.
    pub fn to_vec(&self) -> (r: Vec<String>)
        ensures
            views(r@) == split(self.value@, seq![',']),
    {
        proof {
            reveal_strlit(",");
            assert(","@ =~= seq![',']);
        }
        split_str(self.value.as_str(), ",")
    }

    /// The value read as seconds since the Unix epoch, in nanoseconds; `fallback` when it is not
    /// such a number.
    pub fn to_systemtime_or(&self, fallback: u128) -> (r: u128)
        ensures
            r == time_of(self.value@, fallback),
    {
        match parse_integer_exec(self.value.as_str(), 0, 18446744073709551615) {
            Some(secs) => {
                assert(0 <= secs <= u64::MAX);
                secs as u128 * NANOS_PER_SEC
            },
            None => fallback,
        }
    }

    /// The value read as seconds since the Unix epoch, in nanoseconds; the current time when it
    /// is not such a number.
    pub fn to_systemtime(&self) -> (r: u128)
        ensures
            seconds_of(self.value@) is Some ==> r == time_of(self.value@, 0),
    {
        let now = now_nanos();
        self.to_systemtime_or(now)
    }
}

} // verus!
