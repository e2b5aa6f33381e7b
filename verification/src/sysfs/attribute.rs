//! The text of parameter files and the values that it stands for.

use vstd::prelude::*;
use vstd::string::*;

verus! {

/// Why the text of a parameter could not be turned into a value.
#[derive(Clone, Copy, Debug, PartialEq, Eq, Structural)]
pub enum Error {
    /// The text stands for no value of the parameter's type.
    ConvError,
}

/// A parameter of the driver: it has a file.
pub trait AttributeBase {
    /// The path of the parameter's file.
    fn path(&self) -> &str;
}

/// A parameter that is on or off. The kernel writes it as `Y` or `N`, and
/// takes `1` or `0` as well.
#[derive(Debug)]
pub struct Boolean {
    pub path: String,
}

impl AttributeBase for Boolean {
    fn path(&self) -> (r: &str)
        ensures
            r@ == self.path@,
    {
        self.path.as_str()
    }
}

/// What `str::trim` makes of a text: the text without the white space at
/// its two ends.
pub uninterp spec fn spec_trim(s: Seq<char>) -> Seq<char>;

/// `str::trim`. The contract gives the result its name and claims nothing
/// more of it.
#[verifier::external_body]
fn trim(s: &str) -> (r: &str)
    ensures
        r@ == spec_trim(s@),
{
    s.trim()
}

/// The value that the text of an on/off parameter stands for, white space
/// already taken off.
pub open spec fn spec_decode_bool(text: Seq<char>) -> Result<bool, Error> {
    if text.len() == 1 && (text[0] == 'Y' || text[0] == '1') {
        Ok(true)
    } else if text.len() == 1 && (text[0] == 'N' || text[0] == '0') {
        Ok(false)
    } else {
        Err(Error::ConvError)
    }
}

impl Boolean {
    /// The parameter in the file `path`.
    pub fn from_path(path: String) -> (r: Self)
        ensures
            r.path == path,
    {
        Self { path }
    }

    /// Reads the value from text without white space around it.
    pub fn decode_trimmed(text: &str) -> (r: Result<bool, Error>)
        ensures
            r == spec_decode_bool(text@),
    {
        if text.unicode_len() != 1 {
            return Err(Error::ConvError);
        }
        let c = text.get_char(0);
        if c == 'Y' || c == '1' {
            Ok(true)
        } else if c == 'N' || c == '0' {
            Ok(false)
        } else {
            Err(Error::ConvError)
        }
    }

    /// Reads the value from what the parameter's file holds.
    pub fn decode(repr: &str) -> (r: Result<bool, Error>)
        ensures
            r == spec_decode_bool(spec_trim(repr@)),
    {
        Self::decode_trimmed(trim(repr))
    }

    /// The text to write into the parameter's file.
    pub fn encode(value: bool) -> (r: String)
        ensures
            r@ == if value {
                seq!['1']
            } else {
                seq!['0']
            },
    {
        proof {
            reveal_strlit("1");
            reveal_strlit("0");
            assert("1"@ =~= seq!['1']);
            assert("0"@ =~= seq!['0']);
        }
        if value {
            "1".to_owned()
        } else {
            "0".to_owned()
        }
    }
}

} // verus!
