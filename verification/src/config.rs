//! Sort configuration: the togglable comparison options, the derived key
//! interpretation mode, the error taxonomy, and option validation.

use vstd::prelude::*;

verus! {

/// The key interpretation that drives the primary ordering.  At most one is
/// honored at a time; `mode_of` fixes the precedence among the flags.
#[derive(Clone, Copy, PartialEq, Eq, Structural, Debug)]
pub enum KeyMode {
    /// Compare the (possibly trimmed, case-folded) line itself.
    Plain,
    /// Drop everything but whitespace and dictionary-word characters.
    IgnoreNumericTokens,
    /// Split into numeric and non-numeric runs; numeric runs compare by
    /// magnitude.
    Numeric,
    /// Like `Numeric`, but a numeric run may carry a base-1000 unit suffix.
    NumericUnit,
    /// Whitespace-separated month-name tokens compare as month numbers.
    Month,
    /// Dot- or dash-delimited components compare as a version tuple.
    Version,
}

/// Immutable sort configuration; every field maps to one option of the
/// command surface.
#[derive(Clone, Debug)]
pub struct SortConfig {
    /// Strip leading and trailing whitespace before further processing.
    pub ignore_blanks: bool,
    /// Case-fold the comparison key; the emitted line keeps its casing.
    pub ignore_case: bool,
    /// Key retains only whitespace and dictionary-word characters.
    pub ignore_numeric_tokens: bool,
    /// Numeric runs compare by parsed magnitude.
    pub numeric_aware: bool,
    /// Month-name tokens compare as month numbers.
    pub month_aware: bool,
    /// Numeric runs scaled by a trailing base-1000 unit suffix.
    pub numeric_unit_aware: bool,
    /// Dot- or dash-delimited components compare as a version tuple.
    pub version_aware: bool,
    /// Invert the ordering decision; stable tie-breaks stay untouched.
    pub reverse: bool,
    /// Equal keys keep their input-relative order.
    pub stable: bool,
    /// In check mode, additionally reject adjacent equal keys.
    pub unique: bool,
    /// Validate the input order instead of sorting.
    pub check: bool,
    /// Merge pre-sorted inputs instead of sorting.
    pub merge_only: bool,
    /// Cap on lines held per in-memory run and on runs merged per pass.
    pub batch_size: usize,
    /// Path of an external comparator program; when set, it replaces the
    /// built-in key comparison.
    pub external_key_comparator: Option<String>,
}

/// The fields of a `SortConfig` that determine the built-in ordering; two
/// configurations with equal `OrdCfg` order lines identically.
#[derive(Clone, Copy, PartialEq, Eq, Structural, Debug)]
pub struct OrdCfg {
    /// The active key interpretation.
    pub mode: KeyMode,
    /// Strip leading and trailing whitespace before keying.
    pub ignore_blanks: bool,
    /// Case-fold the key.
    pub ignore_case: bool,
    /// Invert the ordering decision.
    pub reverse: bool,
    /// Break ties by input-relative order.
    pub stable: bool,
}

impl SortConfig {
    /// The key interpretation the configuration selects.  Version ordering
    /// takes precedence over unit-aware, then numeric, then month-aware,
    /// then ignore-numbers ordering; with no flag set the line itself is the
    /// key.
    pub fn mode_of(&self) -> (m: KeyMode)
        ensures
            m == spec_mode_of(*self),
    {
        if self.version_aware {
            KeyMode::Version
        } else if self.numeric_unit_aware {
            KeyMode::NumericUnit
        } else if self.numeric_aware {
            KeyMode::Numeric
        } else if self.month_aware {
            KeyMode::Month
        } else if self.ignore_numeric_tokens {
            KeyMode::IgnoreNumericTokens
        } else {
            KeyMode::Plain
        }
    }

    /// The ordering-relevant projection of the configuration.
    pub fn ord_cfg(&self) -> (oc: OrdCfg)
        ensures
            oc == spec_ord_cfg(*self),
    {
        OrdCfg {
            mode: self.mode_of(),
            ignore_blanks: self.ignore_blanks,
            ignore_case: self.ignore_case,
            reverse: self.reverse,
            stable: self.stable,
        }
    }

    /// Whether the option combination is acceptable.
    pub open spec fn spec_valid(&self) -> bool {
        &&& self.batch_size >= 1
        &&& !(self.ignore_numeric_tokens && self.numeric_aware)
        &&& !(self.ignore_numeric_tokens && self.numeric_unit_aware)
        &&& !(self.unique && !self.check)
        &&& !(self.merge_only && self.check)
    }

    /// Rejects mutually exclusive or missing-requirement option
    /// combinations before any work happens.
    pub fn validate(&self) -> (r: Result<(), SortError>)
        ensures
            r is Ok <==> self.spec_valid(),
            r is Err ==> r->Err_0 is ConfigError,
    {
        if self.batch_size < 1 {
            Err(SortError::ConfigError)
        } else if self.ignore_numeric_tokens && self.numeric_aware {
            Err(SortError::ConfigError)
        } else if self.ignore_numeric_tokens && self.numeric_unit_aware {
            Err(SortError::ConfigError)
        } else if self.unique && !self.check {
            Err(SortError::ConfigError)
        } else if self.merge_only && self.check {
            Err(SortError::ConfigError)
        } else {
            Ok(())
        }
    }
}

/// The key interpretation of a configuration, at the specification level.
pub open spec fn spec_mode_of(c: SortConfig) -> KeyMode {
    if c.version_aware {
        KeyMode::Version
    } else if c.numeric_unit_aware {
        KeyMode::NumericUnit
    } else if c.numeric_aware {
        KeyMode::Numeric
    } else if c.month_aware {
        KeyMode::Month
    } else if c.ignore_numeric_tokens {
        KeyMode::IgnoreNumericTokens
    } else {
        KeyMode::Plain
    }
}

/// The ordering-relevant projection of a configuration, at the
/// specification level.
pub open spec fn spec_ord_cfg(c: SortConfig) -> OrdCfg {
    OrdCfg {
        mode: spec_mode_of(c),
        ignore_blanks: c.ignore_blanks,
        ignore_case: c.ignore_case,
        reverse: c.reverse,
        stable: c.stable,
    }
}

/// Everything that can go wrong: fatal I/O trouble, external comparator
/// misbehavior, an order violation found by check mode, or a rejected
/// option combination.
#[derive(Clone, Debug)]
pub enum SortError {
    /// A file or temporary run could not be opened, read, or written; the
    /// payload carries the reporting text.
    IOError(String),
    /// The external comparator exited nonzero or printed something that is
    /// not an integer; the payload carries the offending reply or the
    /// reporting text, as bytes.
    ComparatorError(Vec<u8>),
    /// Check mode found the input out of order (or, with `unique`, found
    /// adjacent equal keys): `line` is the one-based number of the later
    /// line of the offending pair, `prev` and `cur` are the two lines.
    CheckFailure { line: usize, prev: Vec<u8>, cur: Vec<u8> },
    /// The option combination was rejected before any input was touched.
    ConfigError,
}

} // verus!
