//! Checked addition helpers shared by the engine.
//!
//! Counter arithmetic in the engine must detect overflow instead of silently
//! wrapping, so additions go through these helpers, which surface an explicit
//! error value chosen by the caller.

use vstd::prelude::*;
use vstd::string::StrSliceExecFns;

verus! {

/// The characters of a string, in order.
pub fn chars_of(s: &str) -> (r: Vec<char>)
    ensures
        r@ == s@,
{
    let n = s.unicode_len();
    let mut v: Vec<char> = Vec::new();
    let mut i: usize = 0;
    while i < n
        invariant
            i <= n,
            n as nat == s@.len(),
            v@ == s@.subrange(0, i as int),
        decreases n - i,
    {
        let c = s.get_char(i);
        v.push(c);
        i = i + 1;
        proof {
            assert(v@ =~= s@.subrange(0, i as int));
        }
    }
    proof {
        assert(v@ =~= s@);
    }
    v
}

/// A type that can add a value of its own type, reporting overflow as `None`.
pub trait SafeAdd: Sized {
    /// The mathematical result of the addition: `Some` sum when it is
    /// representable, `None` on overflow.
    spec fn add_spec(&self, other: &Self) -> Option<Self>;

    /// Returns the sum, or `None` when it would overflow.
    fn safe_add(&self, other: &Self) -> (r: Option<Self>)
        ensures
            r == self.add_spec(other),
    ;
}

impl SafeAdd for usize {
    open spec fn add_spec(&self, other: &usize) -> Option<usize> {
        if *self + *other <= usize::MAX {
            Some((*self + *other) as usize)
        } else {
            None
        }
    }

    fn safe_add(&self, other: &usize) -> (r: Option<usize>) {
        self.checked_add(*other)
    }
}

/// Adds `src` into `dst` in place.  On overflow `dst` is left unchanged and
/// the error produced by `f` is returned.
pub fn safe_add<T: SafeAdd, E, F: Fn() -> E>(dst: &mut T, src: &T, f: F) -> (r: Result<(), E>)
    requires
        f.requires(()),
    ensures
        old(dst).add_spec(src) matches Some(v) ==> r is Ok && *final(dst) == v,
        old(dst).add_spec(src) is None ==> (r matches Err(e) && *final(dst) == *old(dst)
            && f.ensures((), e)),
{
    let sum = (*dst).safe_add(src);
    match sum {
        Some(v) => {
            *dst = v;
            Ok(())
        },
        None => Err(f()),
    }
}

} // verus!
