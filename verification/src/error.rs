//! The ways in which setting up or driving the solver is refused.
use vstd::prelude::*;

verus! {

/// Why the solver cannot be set up, reset or measured.
#[derive(Clone, Copy, Debug, PartialEq, Eq, Structural)]
pub enum D3q19Error {
    /// The block size is zero or larger than a device supports.
    BlockSize,
    /// The number of cells does not fit the machine.
    LatticeOverflow,
    /// The number of values of a state does not fit the machine.
    StateOverflow,
    /// The initial state does not have nineteen values per cell.
    InitialLength,
    /// The edge of the lattice is not a power of two.
    NotPowerOfTwo,
    /// The number of cells does not fit the index type of the kernel.
    TooManyCells,
    /// The state of a reset has another length than the one it replaces.
    ResetLength,
    /// A measurement was asked for without a step to measure.
    NoSteps,
}

impl D3q19Error {
    /// The text of the error.
    pub open spec fn text(self) -> Seq<char> {
        match self {
            D3q19Error::BlockSize => "CUDA block size must be in 1..=1024"@,
            D3q19Error::LatticeOverflow => "lattice size overflow"@,
            D3q19Error::StateOverflow => "state size overflow"@,
            D3q19Error::InitialLength => "initial state length does not match D3Q19 lattice"@,
            D3q19Error::NotPowerOfTwo => "kernel specialization requires a power-of-two lattice"@,
            D3q19Error::TooManyCells => "specialized kernel requires <= u32::MAX cells"@,
            D3q19Error::ResetLength => "reset state length mismatch"@,
            D3q19Error::NoSteps => "measurement requires at least one step"@,
        }
    }

    /// The text of the error, for people.
    pub fn message(&self) -> (r: String)
        ensures
            r@ == self.text(),
    {
        match self {
            D3q19Error::BlockSize => "CUDA block size must be in 1..=1024".to_owned(),
            D3q19Error::LatticeOverflow => "lattice size overflow".to_owned(),
            D3q19Error::StateOverflow => "state size overflow".to_owned(),
            D3q19Error::InitialLength => "initial state length does not match D3Q19 lattice".to_owned(),
            D3q19Error::NotPowerOfTwo => "kernel specialization requires a power-of-two lattice".to_owned(),
            D3q19Error::TooManyCells => "specialized kernel requires <= u32::MAX cells".to_owned(),
            D3q19Error::ResetLength => "reset state length mismatch".to_owned(),
            D3q19Error::NoSteps => "measurement requires at least one step".to_owned(),
        }
    }

    /// The text of the error where a program runs the solver on its own account.
    pub open spec fn program_text(self) -> Seq<char> {
        match self {
            D3q19Error::TooManyCells => "specialized kernel currently requires <= u32::MAX cells"@,
            _ => self.text(),
        }
    }

    /// The text of the error, for people who run the program.
    pub fn program_message(&self) -> (r: String)
        ensures
            r@ == self.program_text(),
    {
        match self {
            D3q19Error::TooManyCells => {
                "specialized kernel currently requires <= u32::MAX cells".to_owned()
            },
            _ => self.message(),
        }
    }
}

} // verus!
