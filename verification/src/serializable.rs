//! A minimal self-describing record format: a normalized type tag on the
//! first line, then the record's payload lines. Decoding rejects a record
//! whose tag does not match the expected type.
use crate::text::{drop_breaks, join_seq, join_strs, lines_seq, split_lines, without_breaks};
use vstd::prelude::*;

verus! {

/// The trimmed form of a string: what `str::trim` returns for it.
pub uninterp spec fn trimmed_of(s: Seq<char>) -> Seq<char>;

/// The lower-cased form of a string: what `str::to_lowercase` returns for it.
pub uninterp spec fn lower_of(s: Seq<char>) -> Seq<char>;

/// Relies on str::trim: removes leading and trailing whitespace, a function
/// of the characters alone.
#[verifier::external_body]
pub(crate) fn trim_str(s: &str) -> (r: &str)
    ensures
        r@ == trimmed_of(s@),
{
    s.trim()
}

/// Relies on str::to_lowercase: the lower-cased text, a function of the
/// characters alone.
#[verifier::external_body]
fn lowercase_str(s: &str) -> (r: String)
    ensures
        r@ == lower_of(s@),
{
    s.to_lowercase()
}

/// The normalized form of a tag: trimmed, stripped of line breaks, and
/// lower-cased.
pub open spec fn tag_of(s: Seq<char>) -> Seq<char> {
    lower_of(without_breaks(trimmed_of(s)))
}

/// A type id for a de/serializable type, held in normalized form.
#[derive(Debug, Clone, PartialEq, Eq, Hash)]
pub struct TypeIdString(String);

impl View for TypeIdString {
    type V = Seq<char>;

    closed spec fn view(&self) -> Seq<char> {
        self.0@
    }
}

impl TypeIdString {
    /// Creates a type id by normalizing the given string.
    pub fn new(s: &str) -> (r: Self)
        ensures
            r@ == tag_of(s@),
    {
        let t = trim_str(s);
        let u = drop_breaks(t);
        TypeIdString(lowercase_str(u.as_str()))
    }

    /// Converts this to a string.
    pub fn to_string(self) -> (r: String)
        ensures
            r@ == self@,
    {
        self.0
    }
}

impl TypeIdString {
    /// Whether two type ids hold the same normalized tag.
    pub fn matches(&self, other: &TypeIdString) -> (r: bool)
        ensures
            r == (self@ == other@),
    {
        self.0 == other.0
    }
}

/// Errors that occur while decoding a tagged record.
#[derive(Debug, Clone, PartialEq)]
pub enum Error {
    /// The record's tag line does not match the expected type's tag.
    MismatchedType { expected: TypeIdString, got: TypeIdString },
    /// The input held no tag line at all.
    MissingTypeId,
}

/// A type that can be rebuilt from the lines of a tagged record.
pub trait Deserializable: Sized {
    /// The normalized tag expected at the head of this type's records.
    spec fn spec_type_id() -> Seq<char>;

    /// What it means for a value to be built from the given lines.
    spec fn built_from(values: Seq<Seq<char>>, v: &Self) -> bool;

    /// The tag expected at the head of this type's records.
    fn type_id() -> (r: TypeIdString)
        ensures
            r@ == Self::spec_type_id(),
    ;

    /// Builds a value from raw lines.
    fn from_values(values: Vec<String>) -> (r: Self)
        ensures
            Self::built_from(values.deep_view(), &r),
    ;

    /// Decodes a record: the first line's normalized tag must equal this
    /// type's tag; the value is then built from every line read, the tag
    /// line included. Empty input holds no tag line and is rejected.
    fn from_string(s: &str) -> (r: Result<Self, Error>)
        ensures
            match r {
                Ok(v) => {
                    &&& lines_seq(s@).len() > 0
                    &&& tag_of(lines_seq(s@)[0]) == Self::spec_type_id()
                    &&& Self::built_from(lines_seq(s@), &v)
                },
                Err(Error::MissingTypeId) => lines_seq(s@).len() == 0,
                Err(Error::MismatchedType { expected, got }) => {
                    &&& lines_seq(s@).len() > 0
                    &&& tag_of(lines_seq(s@)[0]) != Self::spec_type_id()
                    &&& expected@ == Self::spec_type_id()
                    &&& got@ == tag_of(lines_seq(s@)[0])
                },
            },
    {
        let all = split_lines(s);
        if all.len() == 0 {
            return Err(Error::MissingTypeId);
        }
        let got = TypeIdString::new(all[0].as_str());
        let expected = Self::type_id();
        if !got.matches(&expected) {
            return Err(Error::MismatchedType { expected, got });
        }
        Ok(Self::from_values(all))
    }
}

/// A type that can be written out as a tagged record.
pub trait Serializable {
    /// The normalized tag written at the head of this type's records.
    spec fn spec_type_id() -> Seq<char>;

    /// The payload lines the value generates.
    spec fn spec_values(&self) -> Seq<Seq<char>>;

    /// The tag written at the head of this type's records.
    fn type_id() -> (r: TypeIdString)
        ensures
            r@ == Self::spec_type_id(),
    ;

    /// The payload lines of this value.
    fn generate_values(&self) -> (r: Vec<String>)
        ensures
            r.deep_view() == self.spec_values(),
    ;

    /// Encodes the record: the normalized tag line, then the payload lines,
    /// joined by newlines.
    fn to_string(&self) -> (r: String)
        ensures
            r@ == join_seq(seq![Self::spec_type_id()] + self.spec_values(), '\n'),
    {
        let mut values = self.generate_values();
        let ghost payload = values.deep_view();
        values.insert(0, Self::type_id().to_string());
        proof {
            reveal_strlit("\n");
            assert(values.deep_view() =~= seq![Self::spec_type_id()] + payload);
        }
        join_strs(&values, "\n")
    }
}

/// A free-form note kept as raw lines: the simplest tagged record.
#[derive(Debug, Clone, PartialEq)]
pub struct Memo {
    pub lines: Vec<String>,
}

impl Deserializable for Memo {
    open spec fn spec_type_id() -> Seq<char> {
        tag_of("memo"@)
    }

    open spec fn built_from(values: Seq<Seq<char>>, v: &Self) -> bool {
        v.lines.deep_view() == values
    }

    fn type_id() -> (r: TypeIdString) {
        TypeIdString::new("memo")
    }

    fn from_values(values: Vec<String>) -> (r: Self) {
        Memo { lines: values }
    }
}

impl Serializable for Memo {
    open spec fn spec_type_id() -> Seq<char> {
        tag_of("memo"@)
    }

    open spec fn spec_values(&self) -> Seq<Seq<char>> {
        self.lines.deep_view()
    }

    fn type_id() -> (r: TypeIdString) {
        TypeIdString::new("memo")
    }

    fn generate_values(&self) -> (r: Vec<String>) {
        let mut out: Vec<String> = Vec::new();
        let mut i: usize = 0;
        while i < self.lines.len()
            invariant
                out.len() == i,
                i <= self.lines.len(),
                forall|k: int| 0 <= k < i ==> out.deep_view()[k] == self.lines.deep_view()[k],
            decreases self.lines.len() - i,
        {
            let ghost old_out = out.deep_view();
            out.push(self.lines[i].clone());
            proof {
                assert(out.deep_view() =~= old_out.push(self.lines.deep_view()[i as int]));
            }
            i += 1;
        }
        proof {
            assert(out.deep_view() =~= self.spec_values());
        }
        out
    }
}

} // verus!
