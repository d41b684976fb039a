//! Values of command line options.

use vstd::prelude::*;
use vstd::string::*;

verus! {

/// What `str::to_lowercase` makes of a text.
pub uninterp spec fn lowercase(text: Seq<char>) -> Seq<char>;

/// Calls `str::to_lowercase`. Trusted: the result is a function of the text
/// alone.
#[verifier::external_body]
fn to_lowercase(text: &str) -> (lower: String)
    ensures
        lower@ == lowercase(text@),
{
    text.to_lowercase()
}

/// An optional boolean: yes, no, or left to be found out.
#[derive(Debug, Clone, Copy)]
pub struct BoolArg(Option<bool>);

impl Default for BoolArg {
    fn default() -> (arg: Self)
        ensures
            arg.choice() is None,
    {
        BoolArg(None)
    }
}

impl BoolArg {
    /// The choice that was made, if any.
    pub closed spec fn choice(self) -> Option<bool> {
        self.0
    }

    /// The choice that was made, if any.
    pub fn value(self) -> (value: Option<bool>)
        ensures
            value == self.choice(),
    {
        self.0
    }

    /// What a text chooses, whatever its case: `auto` leaves the choice open,
    /// `yes` and `no` make it, and nothing else is accepted.
    pub open spec fn chosen(text: Seq<char>) -> Option<Option<bool>> {
        if lowercase(text) == "auto"@ {
            Some(None)
        } else if lowercase(text) == "yes"@ {
            Some(Some(true))
        } else if lowercase(text) == "no"@ {
            Some(Some(false))
        } else {
            None
        }
    }

    /// Reads `auto`, `yes` or `no`, in any case.
    pub fn from_arg_value(value: &str) -> (arg: Option<Self>)
        ensures
            match arg {
                Some(a) => Self::chosen(value@) == Some(a.choice()),
                None => Self::chosen(value@) is None,
            },
    {
        let lower = to_lowercase(value);
        if lower.as_str().eq("auto") {
            Some(BoolArg(None))
        } else if lower.as_str().eq("yes") {
            Some(BoolArg(Some(true)))
        } else if lower.as_str().eq("no") {
            Some(BoolArg(Some(false)))
        } else {
            None
        }
    }
}

} // verus!
