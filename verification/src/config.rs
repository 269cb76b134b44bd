//! The run's configurable inputs, as data: command-line results and the
//! configuration file's sections.  Reading arguments and files happens
//! outside the library.

use vstd::prelude::*;

use crate::render::{Style, Theme};
use crate::sort::SortAction;

verus! {

/// What the command line asked for.
pub struct Args {
    pub sort: Option<SortAction>,
    pub query: Vec<String>,
    pub languages: Vec<String>,
    pub json: bool,
    pub demo: bool,
}

/// The configuration file's search parameters.
pub struct Parameters {
    pub languages: Vec<String>,
    pub query: Vec<String>,
}

/// The configuration file's appearance section.
pub struct Appearance {
    pub glyphs: Style,
    pub colors: Theme,
}

/// The list with its empty strings dropped, order kept.
pub open spec fn keep_nonempty(s: Seq<String>) -> Seq<String>
    decreases s.len(),
{
    if s.len() == 0 {
        Seq::empty()
    } else if s.last()@.len() == 0 {
        keep_nonempty(s.drop_last())
    } else {
        keep_nonempty(s.drop_last()).push(s.last())
    }
}

/// Falls back to the configured list when the command line gave none,
/// then drops empty entries: how arguments and configuration merge.
pub fn append_maybe(left: &mut Vec<String>, right: &Vec<String>)
    ensures
        final(left)@ == keep_nonempty(
            if old(left)@.len() == 0 {
                right@
            } else {
                old(left)@
            },
        ),
{
    if left.len() == 0 {
        let n = right.len();
        let mut i: usize = 0;
        while i < n
            invariant
                n == right@.len(),
                i <= n,
                left@ == keep_nonempty(right@.take(i as int)),
            decreases n - i,
        {
            proof {
                assert(right@.take(i + 1).drop_last() =~= right@.take(i as int));
                assert(right@.take(i + 1).last() == right@[i as int]);
            }
            if right[i].as_str().unicode_len() > 0 {
                left.push(right[i].clone());
            }
            i += 1;
        }
        proof {
            assert(right@.take(n as int) =~= right@);
        }
    } else {
        let ghost orig = left@;
        let mut kept: Vec<String> = Vec::new();
        let n = left.len();
        let mut i: usize = 0;
        while i < n
            invariant
                n == left@.len(),
                left@ == orig,
                i <= n,
                kept@ == keep_nonempty(orig.take(i as int)),
            decreases n - i,
        {
            proof {
                assert(orig.take(i + 1).drop_last() =~= orig.take(i as int));
                assert(orig.take(i + 1).last() == orig[i as int]);
            }
            if left[i].as_str().unicode_len() > 0 {
                kept.push(left[i].clone());
            }
            i += 1;
        }
        proof {
            assert(orig.take(n as int) =~= orig);
        }
        *left = kept;
    }
}

} // verus!
