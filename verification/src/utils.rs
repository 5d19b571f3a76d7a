//! Small helpers on vectors.
use vstd::prelude::*;
use vstd::std_specs::cmp::PartialEqSpec;

use crate::error::GameError;

verus! {

/// The numbers from `min` to `max`, both included, in increasing order (none when `min` is
/// larger than `max`).
pub open spec fn number_range(min: int, max: int) -> Seq<u32> {
    Seq::new(if min <= max { (max - min + 1) as nat } else { 0 }, |j: int| (min + j) as u32)
}

/// Transforms the range into a vector
pub fn generate_number_vector(min: u32, max: u32) -> (v: Vec<u32>)
    ensures
        v@ == number_range(min as int, max as int),
{
    let mut v: Vec<u32> = Vec::new();
    let mut i: u64 = min as u64;
    while i <= max as u64
        invariant
            min <= i <= max as int + 1 || (i == min && min > max),
            v@ == number_range(min as int, i - 1),
        decreases max + 1 - i,
    {
        v.push(i as u32);
        assert(v@ =~= number_range(min as int, i as int));
        i = i + 1;
    }
    assert(v@ =~= number_range(min as int, max as int));
    v
}

/// The index of the first element of `s` that equals `x`, by the type's `==`.
pub open spec fn first_equal<T: PartialEq>(s: Seq<T>, x: T) -> Option<int> {
    if exists|i: int| 0 <= i < s.len() && s[i].eq_spec(&x) {
        Some(choose|i: int| 0 <= i < s.len() && s[i].eq_spec(&x) && forall|j: int| 0 <= j < i ==> !s[j].eq_spec(&x))
    } else {
        None
    }
}

/// Finds the first element that equals the value.
fn find_first<T: PartialEq>(to_find: &T, vec: &Vec<T>) -> (r: Option<usize>)
    requires
        T::obeys_eq_spec(),
    ensures
        r matches Some(i) ==> i < vec@.len() && vec@[i as int].eq_spec(to_find) && forall|j: int|
            0 <= j < i ==> !vec@[j].eq_spec(to_find),
        r is None ==> forall|j: int| 0 <= j < vec@.len() ==> !vec@[j].eq_spec(to_find),
{
    let mut i: usize = 0;
    while i < vec.len()
        invariant
            T::obeys_eq_spec(),
            i <= vec@.len(),
            forall|j: int| 0 <= j < i ==> !vec@[j].eq_spec(to_find),
        decreases vec@.len() - i,
    {
        if vec[i] == *to_find {
            return Some(i);
        }
        i = i + 1;
    }
    None
}

/// Relates the search to the first equal element.
proof fn lemma_first_equal<T: PartialEq>(s: Seq<T>, x: T, r: Option<usize>)
    requires
        r matches Some(i) ==> i < s.len() && s[i as int].eq_spec(&x) && forall|j: int| 0 <= j < i ==> !s[j].eq_spec(&x),
        r is None ==> forall|j: int| 0 <= j < s.len() ==> !s[j].eq_spec(&x),
    ensures
        first_equal(s, x) == match r {
            Some(i) => Some(i as int),
            None => None,
        },
{
    if let Some(i) = r {
        let k = choose|k: int| 0 <= k < s.len() && s[k].eq_spec(&x) && forall|j: int| 0 <= j < k ==> !s[j].eq_spec(&x);
        if k < i {
            assert(!s[k].eq_spec(&x));
        }
        if i < k {
            assert(!s[i as int].eq_spec(&x));
        }
    }
}

/// Removes the first element that equals the value from the vector.
/// Returns an error when the value could not be found.
pub fn remove_content_from_vec<T: PartialEq>(to_remove: T, vec: &mut Vec<T>) -> (r: Result<(), GameError>)
    requires
        T::obeys_eq_spec(),
    ensures
        first_equal(old(vec)@, to_remove) matches Some(i) ==> r is Ok && final(vec)@ == old(vec)@.remove(i),
        first_equal(old(vec)@, to_remove) is None ==> r == Err::<(), GameError>(GameError::ValueNotFound)
            && final(vec)@ == old(vec)@,
{
    let found = find_first(&to_remove, vec);
    proof {
        lemma_first_equal(vec@, to_remove, found);
    }
    match found {
        Some(i) => {
            vec.remove(i);
            Ok(())
        },
        None => Err(GameError::ValueNotFound),
    }
}

/// Returns the first element that equals the value, as reference.
pub fn get_content_from_vec<T: PartialEq>(to_find: T, vec: &Vec<T>) -> (r: Result<&T, GameError>)
    requires
        T::obeys_eq_spec(),
    ensures
        first_equal(vec@, to_find) matches Some(i) ==> r matches Ok(x) && *x == vec@[i],
        first_equal(vec@, to_find) is None ==> r == Err::<&T, GameError>(GameError::ValueNotFound),
{
    let found = find_first(&to_find, vec);
    proof {
        lemma_first_equal(vec@, to_find, found);
    }
    match found {
        Some(i) => Ok(&vec[i]),
        None => Err(GameError::ValueNotFound),
    }
}

} // verus!
