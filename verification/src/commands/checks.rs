//! Who may manage the role toggles: the owner of the guild, an
//! administrator, and whoever manages roles from a role at least as high as
//! the highest from which the bot manages them.

use vstd::prelude::*;

verus! {

/// What the check reads of a role.
#[derive(Clone, Copy, Debug, PartialEq, Eq, Structural)]
pub struct RoleFacts {
    /// The role makes its holders administrators.
    pub administrator: bool,
    /// The role lets its holders manage roles.
    pub manage_roles: bool,
    /// Where the role stands among the roles; higher is stronger.
    pub position: i64,
}

/// Why the check cannot be made.
#[derive(Clone, Copy, Debug, PartialEq, Eq, Structural)]
pub enum CheckError {
    /// The role at this place in the list is not known to the guild.
    RoleNotFound { index: usize },
    /// The bot holds no role from which it manages roles.
    BotLacksPermission,
    /// The user holds no role from which to manage roles.
    UserLacksPermission,
}

/// The higher of a rank so far, if there is one, and a position.
pub open spec fn raised(best: Option<i64>, position: i64) -> Option<i64> {
    match best {
        Some(rank) if rank >= position => Some(rank),
        _ => Some(position),
    }
}

/// The highest position from the `k`-th role on from which the bot manages
/// roles, as an administrator or by the permission itself, starting from
/// `best`. The first role that is not known ends the search.
pub open spec fn bot_rank_from(roles: Seq<Option<RoleFacts>>, k: int, best: Option<i64>) -> Result<
    Option<i64>,
    CheckError,
>
    decreases roles.len() - k,
{
    if k < 0 || k >= roles.len() {
        Ok(best)
    } else {
        match roles[k] {
            None => Err(CheckError::RoleNotFound { index: k as usize }),
            Some(role) => bot_rank_from(
                roles,
                k + 1,
                if role.administrator || role.manage_roles {
                    raised(best, role.position)
                } else {
                    best
                },
            ),
        }
    }
}

/// The highest position from which the bot manages roles. A bot that
/// manages none has no rank.
pub open spec fn bot_rank_of(roles: Seq<Option<RoleFacts>>) -> Result<i64, CheckError> {
    match bot_rank_from(roles, 0, None) {
        Err(error) => Err(error),
        Ok(None) => Err(CheckError::BotLacksPermission),
        Ok(Some(rank)) => Ok(rank),
    }
}

/// The highest position from which the bot manages roles.
pub fn bot_rank(roles: &Vec<Option<RoleFacts>>) -> (result: Result<i64, CheckError>)
    ensures
        result == bot_rank_of(roles@),
{
    let mut best: Option<i64> = None;
    let mut k: usize = 0;
    while k < roles.len()
        invariant
            k <= roles.len(),
            bot_rank_from(roles@, k as int, best) == bot_rank_from(roles@, 0, None),
        decreases roles.len() - k,
    {
        match roles[k] {
            None => {
                return Err(CheckError::RoleNotFound { index: k });
            },
            Some(role) => {
                if role.administrator || role.manage_roles {
                    best = match best {
                        Some(rank) if rank >= role.position => Some(rank),
                        _ => Some(role.position),
                    };
                }
            },
        }
        k += 1;
    }
    match best {
        None => Err(CheckError::BotLacksPermission),
        Some(rank) => Ok(rank),
    }
}

/// Whether a user with the roles from the `k`-th on may manage the toggles,
/// when `best` is the highest position found so far from which the user
/// manages roles. An administrator may, whatever follows. The first role
/// that is not known ends the search. Without a role that manages roles
/// there is no answer. Else the user may if the highest such role stands at
/// least as high as the bot's.
pub open spec fn member_allowed_from(
    roles: Seq<Option<RoleFacts>>,
    bot_rank: i64,
    k: int,
    best: Option<i64>,
) -> Result<bool, CheckError>
    decreases roles.len() - k,
{
    if k < 0 || k >= roles.len() {
        match best {
            None => Err(CheckError::UserLacksPermission),
            Some(rank) => Ok(rank >= bot_rank),
        }
    } else {
        match roles[k] {
            None => Err(CheckError::RoleNotFound { index: k as usize }),
            Some(role) => {
                if role.administrator {
                    Ok(true)
                } else {
                    member_allowed_from(
                        roles,
                        bot_rank,
                        k + 1,
                        if role.manage_roles {
                            raised(best, role.position)
                        } else {
                            best
                        },
                    )
                }
            },
        }
    }
}

/// Whether a user with these roles may manage the toggles.
pub open spec fn member_allowed(roles: Seq<Option<RoleFacts>>, bot_rank: i64) -> Result<
    bool,
    CheckError,
> {
    member_allowed_from(roles, bot_rank, 0, None)
}

/// Whether a user with these roles may manage the toggles, given the
/// highest position from which the bot manages roles.
pub fn check_member(roles: &Vec<Option<RoleFacts>>, bot_rank: i64) -> (result: Result<
    bool,
    CheckError,
>)
    ensures
        result == member_allowed(roles@, bot_rank),
{
    let mut best: Option<i64> = None;
    let mut k: usize = 0;
    while k < roles.len()
        invariant
            k <= roles.len(),
            member_allowed_from(roles@, bot_rank, k as int, best) == member_allowed(
                roles@,
                bot_rank,
            ),
        decreases roles.len() - k,
    {
        match roles[k] {
            None => {
                return Err(CheckError::RoleNotFound { index: k });
            },
            Some(role) => {
                if role.administrator {
                    return Ok(true);
                }
                if role.manage_roles {
                    best = match best {
                        Some(rank) if rank >= role.position => Some(rank),
                        _ => Some(role.position),
                    };
                }
            },
        }
        k += 1;
    }
    match best {
        None => Err(CheckError::UserLacksPermission),
        Some(rank) => Ok(rank >= bot_rank),
    }
}

/// A user without an administrator's role and with every role known is
/// allowed exactly if one of the roles manages roles from the bot's rank or
/// higher.
pub proof fn lemma_member_allowed_by_rank(roles: Seq<Option<RoleFacts>>, bot_rank: i64)
    requires
        forall|j: int|
            0 <= j < roles.len() ==> (#[trigger] roles[j]) is Some && !roles[j]->0.administrator,
    ensures
        member_allowed(roles, bot_rank) == Ok::<bool, CheckError>(true) <==> exists|j: int|
            0 <= j < roles.len() && (#[trigger] roles[j])->0.manage_roles && roles[j]->0.position
                >= bot_rank,
{
    lemma_member_allowed_from(roles, bot_rank, 0, None);
}

proof fn lemma_member_allowed_from(
    roles: Seq<Option<RoleFacts>>,
    bot_rank: i64,
    k: int,
    best: Option<i64>,
)
    requires
        0 <= k <= roles.len(),
        forall|j: int|
            0 <= j < roles.len() ==> (#[trigger] roles[j]) is Some && !roles[j]->0.administrator,
    ensures
        member_allowed_from(roles, bot_rank, k, best) == Ok::<bool, CheckError>(true) <==> (best
            matches Some(rank) && rank >= bot_rank) || exists|j: int|
            k <= j < roles.len() && (#[trigger] roles[j])->0.manage_roles && roles[j]->0.position
                >= bot_rank,
    decreases roles.len() - k,
{
    if k < roles.len() {
        let role = roles[k]->0;
        let next = if role.manage_roles {
            raised(best, role.position)
        } else {
            best
        };
        lemma_member_allowed_from(roles, bot_rank, k + 1, next);
        if role.manage_roles && role.position >= bot_rank {
            assert(roles[k]->0.manage_roles && roles[k]->0.position >= bot_rank);
        }
    }
}

} // verus!
