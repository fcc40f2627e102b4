use vstd::prelude::*;

verus! {

/// The structural parameters of a password.
pub struct PasswordOptions {
    /// Number of sequences in the password.
    pub sequences: usize,
    /// Number of characters in each sequence.
    pub length: usize,
    /// Total number of digits placed in the password.
    pub digits: usize,
    /// Total number of uppercase letters placed in the password.
    pub uppercase: usize,
    /// Text placed between consecutive sequences.
    pub separator: String,
}

impl PasswordOptions {
    /// Number of characters of the password, separators left out.
    pub open spec fn total_length(self) -> int {
        self.sequences as int * self.length as int
    }

    /// The digits and uppercase letters fit in the password.
    pub open spec fn fits(self) -> bool {
        self.digits as int + self.uppercase as int <= self.total_length()
    }
}

/// Why a set of options is refused.
#[derive(Clone, Copy, Debug, PartialEq, Eq, Structural)]
pub enum ValidationError {
    /// More digits and uppercase letters were asked for than the password holds.
    CapacityExceeded,
}

/// The outcome of validating `opts`.
pub open spec fn validation_result(opts: PasswordOptions) -> Result<(), ValidationError> {
    if opts.fits() {
        Ok(())
    } else {
        Err(ValidationError::CapacityExceeded)
    }
}

impl ValidationError {
    /// A sentence that describes the error to a user.
    pub fn message(&self) -> (r: String)
        ensures
            r@ == "The number of uppercase letters and digits exceeds the total number of characters."@,
    {
        match self {
            ValidationError::CapacityExceeded => String::from_str(
                "The number of uppercase letters and digits exceeds the total number of characters.",
            ),
        }
    }
}

/// Checks that the digits and uppercase letters asked for fit in
/// `sequences * length` characters.
pub fn validate_parameters(opts: &PasswordOptions) -> (r: Result<(), ValidationError>)
    ensures
        r == validation_result(*opts),
{
    proof {
        let s = opts.sequences as int;
        let l = opts.length as int;
        let m = u64::MAX as int;
        assert(s * l <= m * m) by (nonlinear_arith)
            requires
                0 <= s <= m,
                0 <= l <= m,
        ;
    }
    let total: u128 = (opts.sequences as u128) * (opts.length as u128);
    let wanted: u128 = (opts.digits as u128) + (opts.uppercase as u128);
    if wanted > total {
        Err(ValidationError::CapacityExceeded)
    } else {
        Ok(())
    }
}

/// Validation depends on the options alone: validating the same options
/// twice gives the same outcome.
pub proof fn lemma_validation_repeatable(
    opts: PasswordOptions,
    first: Result<(), ValidationError>,
    second: Result<(), ValidationError>,
)
    requires
        first == validation_result(opts),
        second == validation_result(opts),
    ensures
        first == second,
{
}

} // verus!
