use vstd::prelude::*;

verus! {

/// A plain error carrying only its description.
#[derive(Debug)]
pub struct ErrorX {
    details: String,
}

impl ErrorX {
    pub closed spec fn details_spec(&self) -> Seq<char> {
        self.details@
    }

    pub fn new(msg: &str) -> (r: ErrorX)
        ensures
            r.details_spec() == msg@,
    {
        ErrorX { details: String::from_str(msg) }
    }

    pub fn new_box(msg: &str) -> (r: Box<ErrorX>)
        ensures
            r.details_spec() == msg@,
    {
        Box::new(ErrorX { details: String::from_str(msg) })
    }

    pub fn magic_err(msg: String) -> (r: ErrorX)
        ensures
            r.details_spec() == msg@,
    {
        ErrorX { details: msg }
    }

    /// The description, for display.
    pub fn message(&self) -> (r: &String)
        ensures
            r@ == self.details_spec(),
    {
        &self.details
    }
}

} // verus!
