//! The role toggles of a guild: an emoji for each role that its members may
//! give to themselves, and the message that lists them.

use crate::text::{chars_of, digits_of, push_digits, push_range, string_of};
use vstd::prelude::*;

verus! {

/// An emoji of a guild, known by its number and its name.
#[derive(Debug, PartialEq, Eq)]
pub struct EmojiRef {
    pub animated: bool,
    pub id: u64,
    pub name: String,
}

/// A role and the emoji that toggles it.
#[derive(Debug, PartialEq, Eq)]
pub struct RoleEmoji {
    pub role: u64,
    pub emoji: EmojiRef,
}

/// `EmojiRef` as mathematical values.
pub struct EmojiView {
    pub animated: bool,
    pub id: nat,
    pub name: Seq<char>,
}

/// `RoleEmoji` as mathematical values.
pub struct RoleEmojiView {
    pub role: nat,
    pub emoji: EmojiView,
}

impl View for EmojiRef {
    type V = EmojiView;

    open spec fn view(&self) -> EmojiView {
        EmojiView { animated: self.animated, id: self.id as nat, name: self.name@ }
    }
}

impl View for RoleEmoji {
    type V = RoleEmojiView;

    open spec fn view(&self) -> RoleEmojiView {
        RoleEmojiView { role: self.role as nat, emoji: self.emoji@ }
    }
}

/// The toggles as mathematical values.
pub open spec fn toggles_of(toggles: Seq<RoleEmoji>) -> Seq<RoleEmojiView> {
    toggles.map_values(|toggle: RoleEmoji| toggle@)
}

/// An emoji as it is written in a message: `<:name:id>`, with an `a` after
/// the `<` if it is animated.
pub open spec fn emoji_text(emoji: EmojiView) -> Seq<char> {
    seq!['<'] + (if emoji.animated {
        seq!['a']
    } else {
        Seq::empty()
    }) + seq![':'] + emoji.name + seq![':'] + digits_of(emoji.id) + seq!['>']
}

/// The line that offers a toggle: the emoji, a blank, the role as it is
/// written in a message, and a line end.
pub open spec fn choice_line(toggle: RoleEmojiView) -> Seq<char> {
    emoji_text(toggle.emoji) + seq![' ', '<', '@', '&'] + digits_of(toggle.role) + seq!['>', '\n']
}

/// The lines that offer the toggles, in their order.
pub open spec fn choices_text(toggles: Seq<RoleEmojiView>) -> Seq<char>
    decreases toggles.len(),
{
    if toggles.len() == 0 {
        Seq::empty()
    } else {
        choices_text(toggles.drop_last()) + choice_line(toggles.last())
    }
}

fn push_emoji(out: &mut Vec<char>, emoji: &EmojiRef)
    ensures
        final(out)@ == old(out)@ + emoji_text(emoji@),
{
    out.push('<');
    if emoji.animated {
        out.push('a');
    }
    out.push(':');
    let name = chars_of(emoji.name.as_str());
    push_range(out, &name, 0, name.len());
    out.push(':');
    push_digits(out, emoji.id);
    out.push('>');
    proof {
        assert(name@.subrange(0, name.len() as int) =~= name@);
        assert(out@ =~= old(out)@ + emoji_text(emoji@));
    }
}

/// An emoji as it is written in a message.
pub fn emoji_id_to_str(emoji: &EmojiRef) -> (text: String)
    ensures
        text@ == emoji_text(emoji@),
{
    let mut out: Vec<char> = Vec::new();
    push_emoji(&mut out, emoji);
    proof {
        assert(out@ =~= emoji_text(emoji@));
        assert(out@.subrange(0, out.len() as int) =~= out@);
    }
    string_of(&out, 0, out.len())
}

/// The lines that offer the toggles.
pub fn role_choices(toggles: &Vec<RoleEmoji>) -> (text: String)
    ensures
        text@ == choices_text(toggles_of(toggles@)),
{
    let ghost all = toggles_of(toggles@);
    let mut out: Vec<char> = Vec::new();
    let mut k: usize = 0;
    proof {
        assert(all.take(0) =~= Seq::<RoleEmojiView>::empty());
        assert(out@ =~= choices_text(all.take(0)));
    }
    while k < toggles.len()
        invariant
            k <= toggles.len(),
            all == toggles_of(toggles@),
            out@ == choices_text(all.take(k as int)),
        decreases toggles.len() - k,
    {
        let ghost before = out@;
        push_emoji(&mut out, &toggles[k].emoji);
        out.push(' ');
        out.push('<');
        out.push('@');
        out.push('&');
        push_digits(&mut out, toggles[k].role);
        out.push('>');
        out.push('\n');
        proof {
            assert(all.take(k + 1).drop_last() =~= all.take(k as int));
            assert(all.take(k + 1).last() == toggles@[k as int]@);
            assert(out@ =~= before + choice_line(toggles@[k as int]@));
        }
        k += 1;
    }
    proof {
        assert(all.take(k as int) =~= all);
        assert(out@.subrange(0, out.len() as int) =~= out@);
    }
    string_of(&out, 0, out.len())
}

/// Whether two emoji are the same: in number, name and animation.
pub fn same_emoji(a: &EmojiRef, b: &EmojiRef) -> (same: bool)
    ensures
        same == (a@ == b@),
{
    let same_name: bool = a.name == b.name;
    a.animated == b.animated && a.id == b.id && same_name
}

/// Whether a toggle is in the way of a new one: it has the emoji, or it is
/// for the role that is named.
pub open spec fn in_the_way(toggle: RoleEmojiView, role: Option<u64>, emoji: EmojiView) -> bool {
    toggle.emoji == emoji || (role matches Some(id) && toggle.role == id)
}

/// The toggles that are not in the way, in their order.
pub open spec fn cleared(toggles: Seq<RoleEmojiView>, role: Option<u64>, emoji: EmojiView) -> Seq<
    RoleEmojiView,
>
    decreases toggles.len(),
{
    if toggles.len() == 0 {
        Seq::empty()
    } else if in_the_way(toggles.last(), role, emoji) {
        cleared(toggles.drop_last(), role, emoji)
    } else {
        cleared(toggles.drop_last(), role, emoji).push(toggles.last())
    }
}

/// Takes out the toggles that are in the way.
fn clear(toggles: &mut Vec<RoleEmoji>, role: Option<u64>, emoji: &EmojiRef)
    ensures
        toggles_of(final(toggles)@) == cleared(toggles_of(old(toggles)@), role, emoji@),
{
    let ghost all = toggles_of(toggles@);
    let ghost mut seen: int = 0;
    let mut i: usize = 0;
    proof {
        assert(all.take(0) =~= Seq::<RoleEmojiView>::empty());
        assert(all.skip(0) =~= all);
    }
    while i < toggles.len()
        invariant
            i <= toggles.len(),
            all == toggles_of(old(toggles)@),
            0 <= seen <= all.len(),
            i == cleared(all.take(seen), role, emoji@).len(),
            toggles_of(toggles@) == cleared(all.take(seen), role, emoji@) + all.skip(seen),
        decreases toggles.len() - i,
    {
        proof {
            assert(toggles_of(toggles@)[i as int] == all.skip(seen)[0]);
            assert(all.take(seen + 1).drop_last() =~= all.take(seen));
            assert(all.take(seen + 1).last() == all[seen]);
            assert(toggles@[i as int]@ == all[seen]);
        }
        let same: bool = same_emoji(&toggles[i].emoji, emoji);
        let same_role: bool = match role {
            Some(id) => toggles[i].role == id,
            None => false,
        };
        if same || same_role {
            let ghost before = toggles_of(toggles@);
            toggles.remove(i);
            proof {
                assert(toggles_of(toggles@) =~= before.remove(i as int));
                assert(before.remove(i as int) =~= cleared(all.take(seen), role, emoji@) + all.skip(
                    seen + 1,
                ));
                seen = seen + 1;
            }
        } else {
            proof {
                assert(cleared(all.take(seen), role, emoji@).push(all[seen]) + all.skip(seen + 1)
                    =~= cleared(all.take(seen), role, emoji@) + all.skip(seen));
                seen = seen + 1;
            }
            i += 1;
        }
    }
    proof {
        assert(all.skip(seen).len() == 0);
        assert(all.take(seen) =~= all);
        assert(toggles_of(toggles@) =~= cleared(all, role, emoji@));
    }
}

/// Sets the emoji that toggles a role. Toggles that had the emoji or were
/// for the role give way, and the new toggle comes last.
pub fn add_toggle(toggles: &mut Vec<RoleEmoji>, role: u64, emoji: EmojiRef)
    ensures
        toggles_of(final(toggles)@) == cleared(
            toggles_of(old(toggles)@),
            Some(role),
            emoji@,
        ).push(RoleEmojiView { role: role as nat, emoji: emoji@ }),
{
    clear(toggles, Some(role), &emoji);
    let ghost before = toggles_of(toggles@);
    toggles.push(RoleEmoji { role, emoji });
    assert(toggles_of(toggles@) =~= before.push(RoleEmojiView { role: role as nat, emoji: emoji@ }));
}

/// Takes out the toggles that have the emoji.
pub fn remove_toggle(toggles: &mut Vec<RoleEmoji>, emoji: &EmojiRef)
    ensures
        toggles_of(final(toggles)@) == cleared(toggles_of(old(toggles)@), None, emoji@),
{
    clear(toggles, None, emoji);
}

/// The role of the first toggle from the `k`-th on whose emoji has the
/// number `id`.
pub open spec fn toggled_from(toggles: Seq<RoleEmojiView>, id: nat, k: int) -> Option<nat>
    decreases toggles.len() - k,
{
    if k < 0 || k >= toggles.len() {
        None
    } else if toggles[k].emoji.id == id {
        Some(toggles[k].role)
    } else {
        toggled_from(toggles, id, k + 1)
    }
}

/// The role that the emoji with the number `id` toggles: that of the first
/// toggle with such an emoji.
pub fn role_for_emoji(toggles: &Vec<RoleEmoji>, id: u64) -> (role: Option<u64>)
    ensures
        match role {
            Some(found) => toggled_from(toggles_of(toggles@), id as nat, 0) == Some(found as nat),
            None => toggled_from(toggles_of(toggles@), id as nat, 0) is None,
        },
{
    let mut k: usize = 0;
    while k < toggles.len()
        invariant
            k <= toggles.len(),
            toggled_from(toggles_of(toggles@), id as nat, k as int) == toggled_from(
                toggles_of(toggles@),
                id as nat,
                0,
            ),
        decreases toggles.len() - k,
    {
        assert(toggles_of(toggles@)[k as int] == toggles@[k as int]@);
        if toggles[k].emoji.id == id {
            return Some(toggles[k].role);
        }
        k += 1;
    }
    None
}

/// What to do about the message that lists the toggles.
#[derive(Clone, Copy, Debug, PartialEq, Eq, Structural)]
pub enum ToggleStep {
    /// A message is asked for, and there is no toggle to list.
    Refuse,
    /// There is no message of the bot's to bring up to date, and none is
    /// asked for.
    Leave,
    /// Send a new message.
    Create,
    /// Bring the bot's message up to date.
    Update,
}

/// What to do about the message that lists the toggles: whether a new one
/// may be made, whether there are toggles, and whether the message on
/// record is there and the bot's own.
pub open spec fn toggle_step_of(allow_creation: bool, has_toggles: bool, has_message: bool) -> ToggleStep {
    if allow_creation && !has_toggles {
        ToggleStep::Refuse
    } else if has_message {
        ToggleStep::Update
    } else if allow_creation {
        ToggleStep::Create
    } else {
        ToggleStep::Leave
    }
}

/// What to do about the message that lists the toggles.
pub fn toggle_step(allow_creation: bool, has_toggles: bool, has_message: bool) -> (step: ToggleStep)
    ensures
        step == toggle_step_of(allow_creation, has_toggles, has_message),
{
    if allow_creation && !has_toggles {
        ToggleStep::Refuse
    } else if has_message {
        ToggleStep::Update
    } else if allow_creation {
        ToggleStep::Create
    } else {
        ToggleStep::Leave
    }
}

} // verus!
