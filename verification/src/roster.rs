//! The list of users in memory: a `heapless::Vec` of at most 32 entries.
//!
//! The functions marked `external_body` call the methods of `heapless::Vec`; their contracts
//! are stated, not proved.
use crate::net::UserInfo;
use vstd::prelude::*;

verus! {

/// How many users fit.
pub const MAX_USERS: usize = 32;

/// `heapless::Vec`, a vector of at most `N` items in place.
#[verifier::external_type_specification]
#[verifier::external_body]
#[verifier::reject_recursive_types(T)]
pub struct ExHeaplessVec<T, const N: usize>(heapless::Vec<T, N>);

/// The users that a list holds, in order.
pub uninterp spec fn roster(users: heapless::Vec<UserInfo, 32>) -> Seq<UserInfo>;

/// The id and the name of each user of a list.
pub open spec fn rows(users: heapless::Vec<UserInfo, 32>) -> Seq<(u64, Seq<char>)> {
    roster(users).map_values(|u: UserInfo| u@)
}

/// Calls `heapless::Vec::new`: the new list is empty.
#[verifier::external_body]
pub(crate) fn roster_new() -> (users: heapless::Vec<UserInfo, 32>)
    ensures
        roster(users) == Seq::<UserInfo>::empty(),
{
    heapless::Vec::new()
}

/// Calls `heapless::Vec::push`: the user goes to the end of a list that is not full; a full
/// list stays as it is and the user comes back.
#[verifier::external_body]
pub(crate) fn roster_push(users: &mut heapless::Vec<UserInfo, 32>, user: UserInfo) -> (r: Result<
    (),
    UserInfo,
>)
    ensures
        match r {
            Ok(_) => roster(*old(users)).len() < 32 && roster(*final(users)) == roster(
                *old(users),
            ).push(user),
            Err(u) => roster(*old(users)).len() == 32 && roster(*final(users)) == roster(
                *old(users),
            ) && u == user,
        },
{
    users.push(user)
}

/// Calls `heapless::Vec::as_slice`: the slice holds the users of the list, of which there are
/// at most 32.
#[verifier::external_body]
pub(crate) fn roster_slice(users: &heapless::Vec<UserInfo, 32>) -> (s: &[UserInfo])
    ensures
        s@ == roster(*users),
        s@.len() <= 32,
{
    users.as_slice()
}

/// Calls `heapless::Vec::as_mut_slice`: the list ends up with what the slice ends up with.
#[verifier::external_body]
pub(crate) fn roster_slice_mut(users: &mut heapless::Vec<UserInfo, 32>) -> (s: &mut [UserInfo])
    ensures
        s@ == roster(*old(users)),
        roster(*final(users)) == final(s)@,
        final(s)@.len() == s@.len(),
{
    users.as_mut_slice()
}

/// Calls `heapless::Vec::swap_remove`: the user at the index comes out and the last user takes
/// its place. The method panics where the index is not below the length.
#[verifier::external_body]
pub(crate) fn roster_swap_remove(users: &mut heapless::Vec<UserInfo, 32>, index: usize) -> (user:
    UserInfo)
    requires
        index < roster(*old(users)).len(),
    ensures
        user == roster(*old(users))[index as int],
        roster(*final(users)) == roster(*old(users)).update(
            index as int,
            roster(*old(users)).last(),
        ).drop_last(),
{
    users.swap_remove(index)
}

/// The rows of a list are the ids and the names of its users, as they are and in order.
pub proof fn law_rows_show_the_users(users: heapless::Vec<UserInfo, 32>, i: int)
    requires
        0 <= i < roster(users).len(),
    ensures
        rows(users).len() == roster(users).len(),
        rows(users)[i].0 == roster(users)[i].id,
        rows(users)[i].1 == roster(users)[i].name@,
{
}

} // verus!
