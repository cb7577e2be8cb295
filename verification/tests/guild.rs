use dice_engine::commands::checks::{bot_rank, check_member, CheckError, RoleFacts};
use dice_engine::commands::roles::{
    add_toggle, emoji_id_to_str, remove_toggle, role_choices, role_for_emoji, same_emoji,
    toggle_step, EmojiRef, RoleEmoji, ToggleStep,
};
use dice_engine::store::store_folder;

fn role(administrator: bool, manage_roles: bool, position: i64) -> Option<RoleFacts> {
    Some(RoleFacts { administrator, manage_roles, position })
}

fn emoji(animated: bool, id: u64, name: &str) -> EmojiRef {
    EmojiRef { animated, id, name: name.to_string() }
}

fn toggle(role: u64, id: u64, name: &str) -> RoleEmoji {
    RoleEmoji { role, emoji: emoji(false, id, name) }
}

#[test]
fn the_bot_ranks_by_its_highest_managing_role() {
    assert_eq!(bot_rank(&vec![]), Err(CheckError::BotLacksPermission));
    assert_eq!(bot_rank(&vec![role(false, false, 9)]), Err(CheckError::BotLacksPermission));
    assert_eq!(bot_rank(&vec![role(false, true, 4)]), Ok(4));
    assert_eq!(bot_rank(&vec![role(true, false, 4)]), Ok(4));
    assert_eq!(
        bot_rank(&vec![role(false, true, 4), role(false, false, 9), role(true, false, 7), role(false, true, -1)]),
        Ok(7)
    );
    assert_eq!(
        bot_rank(&vec![role(false, true, 4), None, role(true, false, 7)]),
        Err(CheckError::RoleNotFound { index: 1 })
    );
    assert_eq!(bot_rank(&vec![role(false, true, i64::MIN)]), Ok(i64::MIN));
}

#[test]
fn a_member_needs_a_role_as_high_as_the_bots() {
    assert_eq!(check_member(&vec![], 5), Err(CheckError::UserLacksPermission));
    assert_eq!(check_member(&vec![role(false, false, 9)], 5), Err(CheckError::UserLacksPermission));
    assert_eq!(check_member(&vec![role(false, true, 4)], 5), Ok(false));
    assert_eq!(check_member(&vec![role(false, true, 5)], 5), Ok(true));
    assert_eq!(check_member(&vec![role(false, true, 4), role(false, true, 6)], 5), Ok(true));
    assert_eq!(check_member(&vec![role(false, true, 6), role(false, true, 4)], 5), Ok(true));
    // An administrator is allowed whatever else there is.
    assert_eq!(check_member(&vec![role(true, false, 0)], 5), Ok(true));
    assert_eq!(check_member(&vec![role(true, false, 0), None], 5), Ok(true));
    assert_eq!(
        check_member(&vec![None, role(true, false, 0)], 5),
        Err(CheckError::RoleNotFound { index: 0 })
    );
}

#[test]
fn emoji_are_written_with_their_number() {
    assert_eq!(emoji_id_to_str(&emoji(false, 42, "dice")), "<:dice:42>");
    assert_eq!(emoji_id_to_str(&emoji(true, 0, "spin")), "<a:spin:0>");
    assert_eq!(
        emoji_id_to_str(&emoji(false, u64::MAX, "")),
        "<::18446744073709551615>"
    );
}

#[test]
fn choices_list_every_toggle() {
    assert_eq!(role_choices(&vec![]), "");
    assert_eq!(
        role_choices(&vec![toggle(7, 42, "dice"), RoleEmoji { role: 8, emoji: emoji(true, 43, "spin") }]),
        "<:dice:42> <@&7>\n<a:spin:43> <@&8>\n"
    );
}

#[test]
fn a_new_toggle_clears_its_role_and_its_emoji() {
    let mut toggles = vec![toggle(1, 10, "a"), toggle(2, 20, "b"), toggle(3, 30, "c")];
    add_toggle(&mut toggles, 4, emoji(false, 40, "d"));
    assert_eq!(
        toggles,
        vec![toggle(1, 10, "a"), toggle(2, 20, "b"), toggle(3, 30, "c"), toggle(4, 40, "d")]
    );
    // The role 2 and the emoji of role 3 both give way.
    add_toggle(&mut toggles, 2, emoji(false, 30, "c"));
    assert_eq!(toggles, vec![toggle(1, 10, "a"), toggle(4, 40, "d"), toggle(2, 30, "c")]);
    remove_toggle(&mut toggles, &emoji(false, 40, "d"));
    assert_eq!(toggles, vec![toggle(1, 10, "a"), toggle(2, 30, "c")]);
    // The same number under another name is another emoji.
    remove_toggle(&mut toggles, &emoji(false, 10, "other"));
    assert_eq!(toggles, vec![toggle(1, 10, "a"), toggle(2, 30, "c")]);
    remove_toggle(&mut toggles, &emoji(true, 10, "a"));
    assert_eq!(toggles.len(), 2);
    assert!(same_emoji(&emoji(true, 1, "x"), &emoji(true, 1, "x")));
    assert!(!same_emoji(&emoji(true, 1, "x"), &emoji(true, 2, "x")));
}

#[test]
fn the_first_toggle_with_the_emoji_names_the_role() {
    let toggles = vec![toggle(1, 10, "a"), toggle(2, 20, "b"), toggle(3, 10, "c")];
    assert_eq!(role_for_emoji(&toggles, 10), Some(1));
    assert_eq!(role_for_emoji(&toggles, 20), Some(2));
    assert_eq!(role_for_emoji(&toggles, 30), None);
    assert_eq!(role_for_emoji(&vec![], 10), None);
}

#[test]
fn the_list_of_toggles_is_made_or_brought_up_to_date() {
    assert_eq!(toggle_step(true, false, false), ToggleStep::Refuse);
    assert_eq!(toggle_step(true, false, true), ToggleStep::Refuse);
    assert_eq!(toggle_step(true, true, false), ToggleStep::Create);
    assert_eq!(toggle_step(true, true, true), ToggleStep::Update);
    assert_eq!(toggle_step(false, true, false), ToggleStep::Leave);
    assert_eq!(toggle_step(false, false, false), ToggleStep::Leave);
    assert_eq!(toggle_step(false, true, true), ToggleStep::Update);
    assert_eq!(toggle_step(false, false, true), ToggleStep::Update);
}

#[test]
fn folders_are_named_in_letters_and_numbers() {
    assert_eq!(store_folder("bot::commands::roles::RolesConfig"), "bot__commands__roles__RolesConfig");
    assert_eq!(store_folder("Vec<u8>"), "Vec_u8_");
    assert_eq!(store_folder("größe 2"), "größe_2");
    assert_eq!(store_folder(""), "");
}
