//! Program configuration: where the elevation maps live and how the
//! program was asked to run.  The host fills it in from the command line;
//! the library only derives values from it.

use vstd::prelude::*;
use vstd::string::StringExecFns;
use vstd::string::StrSliceExecFns;

verus! {

/// The program's configuration.
pub struct Config {
    pub maps: String,
    pub headless: bool,
    pub params_fname: String,
    pub command: String,
}

impl Config {
    /// The map directory with a trailing slash: `maps` as it stands when
    /// it already ends in one, else with `/` appended.
    pub fn map_dir(&self) -> (r: String)
        ensures
            self.maps@.len() > 0 && self.maps@.last() == '/' ==> r@ == self.maps@,
            self.maps@.len() == 0 || self.maps@.last() != '/' ==> r@ == self.maps@ + "/"@,
    {
        let n = self.maps.as_str().unicode_len();
        if n > 0 && self.maps.as_str().get_char(n - 1) == '/' {
            let r = self.maps.as_str().to_owned();
            proof {
                assert(r@ =~= self.maps@);
            }
            r
        } else {
            let mut r = self.maps.as_str().to_owned();
            r.append("/");
            r
        }
    }
}

} // verus!
