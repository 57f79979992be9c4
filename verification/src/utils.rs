//! Small helpers shared by the crawler and the solver.

use std::fmt::Debug;
use vstd::prelude::*;

verus! {

/// Progress of a piece of work that is measured in nodes.
///
/// `total` is `usize::MAX` where the number of nodes is not known.
#[derive(Debug, Clone, Default, PartialEq, Eq)]
pub struct Progress {
    pub current: usize,
    pub total: usize,
    pub id: usize,
    pub name: String,
}

/// What `one_or_len` makes of a list: its only element, or its length.
pub open spec fn only_element<T>(values: Seq<T>) -> Result<T, usize> {
    if values.len() == 1 {
        Ok(values[0])
    } else {
        Err(values.len() as usize)
    }
}

/// Unwraps a list of exactly one element; any other list yields its length.
pub fn one_or_len<T>(values: Vec<T>) -> (r: Result<T, usize>)
    ensures
        r == only_element(values@),
{
    let mut values = values;
    let n: usize = values.len();
    match values.pop() {
        Some(v) => {
            if n == 1 {
                Ok(v)
            } else {
                Err(n)
            }
        },
        None => Err(0),
    }
}

/// The first element that is not `Ok(true)`, or `Ok(true)` where there is none.
pub open spec fn first_objection<E>(results: Seq<Result<bool, E>>) -> Result<bool, E>
    decreases results.len(),
{
    if results.len() == 0 {
        Ok(true)
    } else if results[0] == Ok::<bool, E>(true) {
        first_objection(results.drop_first())
    } else {
        results[0]
    }
}

/// Checks that every result is `Ok(true)`; returns the first one that is not.
pub fn try_all<E>(results: Vec<Result<bool, E>>) -> (r: Result<bool, E>)
    ensures
        r == first_objection(results@),
{
    let ghost all = results@;
    assert(all.skip(0) =~= all);
    for result in it: results.into_iter()
        invariant
            it.seq() == all,
            all == results@,
            first_objection(all.skip(it.index() as int)) == first_objection(all),
    {
        proof {
            let rest = all.skip(it.index() as int);
            assert(rest[0] == result);
            assert(rest.drop_first() =~= all.skip(it.index() + 1));
        }
        let fine = match &result {
            Ok(b) => *b,
            Err(_) => false,
        };
        if !fine {
            assert(result != Ok::<bool, E>(true));
            return result;
        }
        assert(result == Ok::<bool, E>(true));
    }
    Ok(true)
}

/// The envelope in which the service wraps every answer.
#[derive(Debug, Clone)]
pub struct Response<T> where T: Debug + Clone {
    pub data: T,
}

impl<T> Response<T> where T: Debug + Clone {
    /// What the envelope holds, turned into a `U`.
    pub fn into<U>(self) -> (r: U) where T: Into<U>
        ensures
            call_ensures(T::into, (self.data,), r),
    {
        self.data.into()
    }
}

} // verus!
