use vstd::prelude::*;

verus! {

/// One change in a batch of writes to a column family.
pub enum Modify {
    Put { key: Vec<u8>, value: Vec<u8>, cf: String },
    Delete { key: Vec<u8>, cf: String },
}

impl Modify {
    /// The key the change is about.
    pub open spec fn spec_key(&self) -> Seq<u8> {
        match self {
            Modify::Put { key, .. } => key@,
            Modify::Delete { key, .. } => key@,
        }
    }

    /// The column family the change is about.
    pub open spec fn spec_cf(&self) -> Seq<char> {
        match self {
            Modify::Put { cf, .. } => cf@,
            Modify::Delete { cf, .. } => cf@,
        }
    }

    /// The key the change is about.
    pub fn key(&self) -> (r: &Vec<u8>)
        ensures
            r@ == self.spec_key(),
    {
        match self {
            Modify::Put { key, .. } => key,
            Modify::Delete { key, .. } => key,
        }
    }

    /// The value a put writes; a deletion has none.
    pub fn value(&self) -> (r: Option<&Vec<u8>>)
        ensures
            match self {
                Modify::Put { value, .. } => r matches Some(v) && v@ == value@,
                Modify::Delete { .. } => r is None,
            },
    {
        match self {
            Modify::Put { value, .. } => Some(value),
            _ => None,
        }
    }

    /// The column family the change is about.
    pub fn cf(&self) -> (r: &String)
        ensures
            r@ == self.spec_cf(),
    {
        match self {
            Modify::Put { cf, .. } => cf,
            Modify::Delete { cf, .. } => cf,
        }
    }
}

} // verus!
