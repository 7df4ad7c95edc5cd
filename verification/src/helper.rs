//! What the stages share: checked addition, and the characters of a string.
use vstd::prelude::*;
use vstd::std_specs::iter::IteratorSpec;

verus! {

broadcast use vstd::string::group_string_axioms;

/// The characters of `s`, in order.
pub fn chars_of(s: &str) -> (v: Vec<char>)
    ensures
        v@ == s@,
{
    let mut v: Vec<char> = Vec::new();
    let mut it = s.chars();
    loop
        invariant
            it.obeys_prophetic_iter_laws(),
            it.decrease() is Some,
            v@ + it.remaining() == s@,
        decreases it.decrease()->0,
    {
        let ghost before = it;
        match it.next() {
            Some(c) => {
                proof {
                    assert(v@.push(c) + before.remaining().drop_first() =~= v@
                        + before.remaining());
                }
                v.push(c);
            },
            None => {
                proof {
                    assert(v@ + it.remaining() =~= v@);
                }
                return v;
            },
        }
    }
}

/// Addition that reports overflow instead of wrapping.
pub trait SafeAdd: Sized {
    /// The sum of `self` and `n`, or `None` where it does not fit the type.
    spec fn sum(&self, n: &Self) -> Option<Self>;

    fn safe_add(&self, n: &Self) -> (r: Option<Self>)
        ensures
            r == self.sum(n),
    ;
}

impl SafeAdd for usize {
    open spec fn sum(&self, n: &Self) -> Option<Self> {
        if *self + *n <= usize::MAX {
            Some((*self + *n) as usize)
        } else {
            None
        }
    }

    fn safe_add(&self, n: &Self) -> (r: Option<Self>) {
        self.checked_add(*n)
    }
}

/// Adds `src` to `dst` in place. Where the sum does not fit, `dst` keeps its
/// value and the error that `f` builds is returned.
pub fn safe_add<T, F, E>(dst: &mut T, src: &T, f: F) -> (r: Result<(), E>) where
    T: SafeAdd,
    F: Fn() -> E,

    requires
        old(dst).sum(src) is None ==> f.requires(()),
    ensures
        match old(dst).sum(src) {
            Some(n) => r is Ok && *final(dst) == n,
            None => r is Err && f.ensures((), r->Err_0) && *final(dst) == *old(dst),
        },
{
    if let Some(n) = dst.safe_add(src) {
        *dst = n;
        Ok(())
    } else {
        Err(f())
    }
}

} // verus!
