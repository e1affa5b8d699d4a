use vstd::prelude::*;

verus! {

/// How an AST holds its names: borrowed from the source text or owned.
pub trait Text<'a>: Sized {
    type Value: Clone + core::fmt::Debug + PartialEq + Eq + PartialOrd + Ord;

    /// The characters that a held name stands for.
    spec fn text_view(v: &Self::Value) -> Seq<char>;

    /// Holds the characters of `s`.
    fn from_text(s: &'a str) -> (r: Self::Value)
        ensures
            Self::text_view(&r) == s@,
    ;

    /// Another holder of the same name.
    fn copy_text(v: &Self::Value) -> (r: Self::Value)
        ensures
            Self::text_view(&r) == Self::text_view(v),
    ;

    /// Reads a held name back as a string slice.
    fn as_text(v: &Self::Value) -> (r: &str)
        ensures
            r@ == Self::text_view(v),
    ;
}

impl<'a> Text<'a> for &'a str {
    type Value = &'a str;

    open spec fn text_view(v: &&'a str) -> Seq<char> {
        v@
    }

    fn from_text(s: &'a str) -> (r: &'a str) {
        s
    }

    fn copy_text(v: &&'a str) -> (r: &'a str) {
        *v
    }

    fn as_text<'b>(v: &'b &'a str) -> (r: &'b str) {
        *v
    }
}

impl<'a> Text<'a> for String {
    type Value = String;

    open spec fn text_view(v: &String) -> Seq<char> {
        v@
    }

    fn from_text(s: &'a str) -> (r: String) {
        String::from_str(s)
    }

    fn copy_text(v: &String) -> (r: String) {
        v.clone()
    }

    fn as_text(v: &String) -> (r: &str) {
        v.as_str()
    }
}

} // verus!
