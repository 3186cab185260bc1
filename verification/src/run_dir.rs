use crate::dump_file::atoms_count_of;
use crate::text::{has_prefix, parse_u64, starts_with};
use vstd::prelude::*;
use vstd::string::*;

verus! {

/// The directory of one simulation run and the number in its name.
#[derive(Debug)]
pub struct RunDir {
    pub path: String,
    pub num: usize,
}

/// The number of the run whose directory is called `name`: what follows
/// `run_`, where that writes a number.
pub open spec fn run_number_of(name: Seq<char>) -> Option<usize> {
    if has_prefix(name, "run_"@) {
        atoms_count_of(name.skip(4))
    } else {
        None
    }
}

impl RunDir {
    /// The run at `path` with number `num`.
    pub fn new(path: String, num: usize) -> (r: Self)
        ensures
            r.path@ == path@,
            r.num == num,
    {
        Self { path, num }
    }

    /// Reads the number of a run from the name of its directory.
    pub fn run_number(name: &str) -> (r: Option<usize>)
        ensures
            r == run_number_of(name@),
    {
        if !starts_with(name, "run_") {
            return None;
        }
        proof {
            reveal_strlit("run_");
        }
        let n: usize = name.unicode_len();
        let digits = name.substring_char(4, n);
        proof {
            assert(name@.subrange(4, n as int) =~= name@.skip(4));
        }
        match parse_u64(digits) {
            Some(v) => {
                if v > usize::MAX as u64 {
                    None
                } else {
                    Some(v as usize)
                }
            },
            None => None,
        }
    }
}

} // verus!
