//! The host platforms a build may be restricted to.

use crate::error::Error;
use crate::text::{spells, to_chars};
use vstd::prelude::*;

verus! {

/// An operating system that a `Build` can demand of the host.
#[derive(Debug, Clone, Copy, PartialEq, Eq, Structural)]
pub enum Os {
    Linux,
    Mac,
    Windows,
}

/// `s` without one trailing `_os` or, failing that, one trailing `os`.
pub open spec fn os_stem(s: Seq<char>) -> Seq<char> {
    if "_os"@.is_suffix_of(s) {
        s.take(s.len() - "_os"@.len())
    } else if "os"@.is_suffix_of(s) {
        s.take(s.len() - "os"@.len())
    } else {
        s
    }
}

/// The platform that `s` names: `linux`, `mac` or `windows`, each with an
/// optional `os` or `_os` behind it.
pub open spec fn parse_os(s: Seq<char>) -> Option<Os> {
    let stem = os_stem(s);
    if stem == "linux"@ {
        Some(Os::Linux)
    } else if stem == "mac"@ {
        Some(Os::Mac)
    } else if stem == "windows"@ {
        Some(Os::Windows)
    } else {
        None
    }
}

impl Os {
    /// Reads a platform name.
    pub fn from_str(s: &str) -> (r: Result<Os, Error>)
        ensures
            match parse_os(s@) {
                Some(os) => r == Ok::<Os, Error>(os),
                None => r == Err::<Os, Error>(Error::InvalidFormat),
            },
    {
        let v = to_chars(s);
        let n = v.len();
        proof {
            reveal_strlit("_os");
            reveal_strlit("os");
        }
        let end: usize = if n >= 3 && spells(&v, n - 3, n, "_os") {
            n - 3
        } else if n >= 2 && spells(&v, n - 2, n, "os") {
            n - 2
        } else {
            n
        };
        assert(v@.subrange(0, end as int) =~= os_stem(s@));
        if spells(&v, 0, end, "linux") {
            Ok(Os::Linux)
        } else if spells(&v, 0, end, "mac") {
            Ok(Os::Mac)
        } else if spells(&v, 0, end, "windows") {
            Ok(Os::Windows)
        } else {
            Err(Error::InvalidFormat)
        }
    }
}

} // verus!
