use vstd::prelude::*;

verus! {

/// The dimensions of a simulation: side `n`, dimension `d` and number `k` of opinions.
pub struct SimulationData {
    pub n: u32,
    pub d: u8,
    pub k: u16,
}

impl SimulationData {
    pub fn new(n: u32, d: u8, k: u16) -> (data: Self)
        ensures
            data.n == n,
            data.d == d,
            data.k == k,
    {
        Self { n, d, k }
    }
}

} // verus!
