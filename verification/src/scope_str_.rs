//! A text that lives in a scope.

use vstd::prelude::*;

use crate::emplace_::TrEmplace;
use crate::mem_::Layout;

verus! {

/// A text that was copied into a scope.
#[derive(Debug)]
pub struct ScopeStr {
    text_: String,
}

impl View for ScopeStr {
    type V = Seq<char>;

    closed spec fn view(&self) -> Seq<char> {
        self.text_@
    }
}

impl core::ops::Deref for ScopeStr {
    type Target = str;

    fn deref(&self) -> (r: &str)
        ensures
            r@ == self@,
    {
        self.text_.as_str()
    }
}

/// Whether the two texts are the same.
pub open spec fn same_text(a: &str, b: Seq<char>) -> bool {
    a@ == b
}

impl core::borrow::Borrow<str> for ScopeStr {
    fn borrow(&self) -> (r: &str)
        ensures
            same_text(r, self@),
    {
        self.text_.as_str()
    }
}

impl AsRef<str> for ScopeStr {
    fn as_ref(&self) -> (r: &str)
        ensures
            r@ == self@,
    {
        self.text_.as_str()
    }
}

impl ScopeStr {
    pub fn as_str(&self) -> (r: &str)
        ensures
            r@ == self@,
    {
        self.text_.as_str()
    }
}

/// Makes a text in a scope as a copy of another.
pub struct EmplaceScopeStr<'f> {
    pub source_: &'f str,
}

impl<'f> EmplaceScopeStr<'f> {
    pub fn copying(source: &'f str) -> (r: Self)
        ensures
            r == (EmplaceScopeStr { source_: source }),
    {
        EmplaceScopeStr { source_: source }
    }
}

impl<'f> TrEmplace for EmplaceScopeStr<'f> {
    type Target = ScopeStr;

    open spec fn ready(&self) -> bool {
        true
    }

    open spec fn places(&self, data: ScopeStr) -> bool {
        data@ == self.source_@
    }

    /// The bytes of the text, one behind the other.
    open spec fn layout(&self) -> Layout {
        Layout { size: self.source_.len(), align: 1 }
    }

    /// How many bytes the text has.
    open spec fn meta(&self) -> usize {
        self.source_.len()
    }

    fn layout_(&self) -> (r: Layout) {
        Layout { size: self.source_.len(), align: 1 }
    }

    fn meta_(&self) -> (r: usize) {
        self.source_.len()
    }

    fn emplace(self) -> (r: ScopeStr) {
        ScopeStr { text_: self.source_.to_owned() }
    }
}

/// A text takes one byte for each of its bytes, wherever it stands, and its length is noted; what
/// is placed is the same text.
pub proof fn law_text_is_copied(copy: EmplaceScopeStr<'_>, data: ScopeStr)
    ensures
        copy.layout().size == copy.source_.len() && copy.layout().align == 1,
        copy.meta() == copy.source_.len(),
        copy.ready(),
        copy.places(data) <==> data@ == copy.source_@,
{
}

} // verus!
