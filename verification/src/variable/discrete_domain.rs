use vstd::prelude::*;

verus! {

/// A finite domain of discrete values.
///
/// Values are stored in a fixed order. That ordering defines the mapping
/// between domain values and the indices used by discrete factor
/// representations.
#[derive(Clone, Debug, PartialEq, Eq)]
pub struct DiscreteDomain {
    values: Vec<String>,
}

impl View for DiscreteDomain {
    type V = Seq<Seq<char>>;

    /// The values of the domain, in order.
    closed spec fn view(&self) -> Seq<Seq<char>> {
        self.values@.map_values(|s: String| s@)
    }
}

impl DiscreteDomain {
    /// Creates a discrete domain from an ordered collection of values.
    pub fn new(values: &[&str]) -> (d: Self)
        ensures
            d@ == values@.map_values(|s: &str| s@),
    {
        let mut out: Vec<String> = Vec::new();
        let mut i: usize = 0;
        while i < values.len()
            invariant
                i <= values.len(),
                out.len() == i,
                forall|j: int| 0 <= j < i ==> #[trigger] out@[j]@ == values@[j]@,
            decreases values.len() - i,
        {
            out.push(values[i].to_owned());
            i += 1;
        }
        let d = Self { values: out };
        assert(d@ =~= values@.map_values(|s: &str| s@));
        d
    }

    /// Returns the values in the domain.
    pub fn values(&self) -> (v: &[String])
        ensures
            v@.map_values(|s: String| s@) == self@,
    {
        self.values.as_slice()
    }

    /// Returns the number of values in the domain.
    pub fn len(&self) -> (n: usize)
        ensures
            n == self@.len(),
    {
        self.values.len()
    }

    /// Returns whether the domain contains no values.
    pub fn is_empty(&self) -> (b: bool)
        ensures
            b == (self@.len() == 0),
    {
        self.values.len() == 0
    }
}

} // verus!
