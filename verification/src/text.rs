//! Text that is compared by its characters.
use vstd::prelude::*;
use vstd::std_specs::cmp::PartialEqSpecImpl;

verus! {

/// A piece of text. Two of them are equal where they hold the same characters.
#[derive(Debug)]
pub struct Text(pub String);

impl View for Text {
    type V = Seq<char>;

    open spec fn view(&self) -> Seq<char> {
        self.0@
    }
}

impl Clone for Text {
    fn clone(&self) -> (r: Text)
        ensures
            r@ == self@,
    {
        Text(self.0.clone())
    }
}


impl PartialEq for Text {
    fn eq(&self, other: &Text) -> (r: bool) {
        self.0 == other.0
    }
}

impl Eq for Text {

}

impl PartialEqSpecImpl for Text {
    open spec fn obeys_eq_spec() -> bool {
        true
    }

    open spec fn eq_spec(&self, other: &Text) -> bool {
        self@ == other@
    }
}

} // verus!
