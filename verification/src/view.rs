use vstd::prelude::*;

verus! {

/// The columns of the server's table of clients.
#[derive(Clone, Copy, Debug, PartialEq, Eq, Hash, Structural)]
pub enum BasicColumn {
    Address,
    Uploaded,
}

impl BasicColumn {
    /// The heading text of the column.
    pub fn as_str(&self) -> (r: &'static str)
        ensures
            *self == BasicColumn::Address ==> r@ == "Address"@,
            *self == BasicColumn::Uploaded ==> r@ == "Uploaded"@,
    {
        match *self {
            BasicColumn::Address => "Address",
            BasicColumn::Uploaded => "Uploaded",
        }
    }
}

} // verus!
