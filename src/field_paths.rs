use vstd::prelude::*;

verus! {

/// The dotted path of `key` under `prefix`: `key` alone under an empty
/// prefix, `prefix` alone for an empty key, else `prefix.key`.
pub open spec fn joined(prefix: Seq<char>, key: Seq<char>) -> Seq<char> {
    if prefix.len() == 0 {
        key
    } else if key.len() == 0 {
        prefix
    } else {
        prefix + seq!['.'] + key
    }
}

/// A single dotted path, such as `"database.url"` or `"a"`.
#[derive(Debug, Clone, PartialEq, Eq, Hash)]
pub struct FieldName(String);

impl View for FieldName {
    type V = Seq<char>;

    closed spec fn view(&self) -> Seq<char> {
        self.0@
    }
}

impl FieldName {
    /// The dotted path, borrowed.
    pub fn as_str(&self) -> (r: &str)
        ensures
            r@ == self@,
    {
        self.0.as_str()
    }

    /// A path holding the literal `lit`.
    pub fn static_lit(lit: &'static str) -> (r: FieldName)
        ensures
            r@ == lit@,
    {
        FieldName(lit.to_owned())
    }

    /// A path holding `s`.
    pub fn from_string(s: String) -> (r: FieldName)
        ensures
            r@ == s@,
    {
        FieldName(s)
    }

    /// Appends `key` to the (possibly empty) `prefix`.
    pub fn join(prefix: &str, key: &'static str) -> (r: FieldName)
        ensures
            r@ == joined(prefix@, key@),
    {
        if prefix.is_empty() {
            FieldName::static_lit(key)
        } else if key.is_empty() {
            FieldName::from_string(prefix.to_owned())
        } else {
            let dot = ".";
            proof {
                reveal_strlit(".");
            }
            let path = prefix.to_owned().concat(dot).concat(key);
            FieldName::from_string(path)
        }
    }
}

/// Something that stands for a path and can be turned into a [`FieldName`].
pub trait AsField {
    fn as_field(&self) -> FieldName;
}

impl AsField for FieldName {
    fn as_field(&self) -> (r: FieldName)
        ensures
            r@ == self@,
    {
        FieldName(self.0.clone())
    }
}

impl AsField for &str {
    fn as_field(&self) -> (r: FieldName)
        ensures
            r@ == (*self)@,
    {
        FieldName::from_string((*self).to_owned())
    }
}

impl AsField for String {
    fn as_field(&self) -> (r: FieldName)
        ensures
            r@ == self@,
    {
        FieldName::from_string(self.clone())
    }
}

/// The path of a composite within a larger one, from which the paths of its
/// fields are built. The prefix of the outermost composite is empty.
pub struct PathPrefix(String);

impl View for PathPrefix {
    type V = Seq<char>;

    closed spec fn view(&self) -> Seq<char> {
        self.0@
    }
}

impl PathPrefix {
    /// The empty prefix of an outermost composite.
    pub fn root() -> (r: PathPrefix)
        ensures
            r@ == Seq::<char>::empty(),
    {
        PathPrefix(String::new())
    }

    /// The path of leaf field `key`.
    pub fn field(&self, key: &'static str) -> (r: FieldName)
        ensures
            r@ == joined(self@, key@),
    {
        FieldName::join(self.0.as_str(), key)
    }

    /// The prefix of nested composite field `key`.
    pub fn nested(&self, key: &'static str) -> (r: PathPrefix)
        ensures
            r@ == joined(self@, key@),
    {
        let name = FieldName::join(self.0.as_str(), key);
        PathPrefix(name.0)
    }
}

impl AsField for PathPrefix {
    fn as_field(&self) -> (r: FieldName)
        ensures
            r@ == self@,
    {
        FieldName::from_string(self.0.clone())
    }
}

/// A type whose fields can be named by dotted paths.
///
/// `fields()` returns the builder for the outermost composite; its methods
/// give the [`FieldName`] of each leaf field and the builder of each nested
/// one.
pub trait HasFields {
    type Fields;

    fn fields() -> Self::Fields;
}

} // verus!
