use game_rules::chat::{
    block_reply, classify_chat_message, escape_refused, match_name, parse_block_command, parse_notice_command,
    parse_whisper_command, route_whisper, strip_command, unblock_reply, whisper_reply, BlockCommand, BlockLists,
    BlockRefusal, BlockReply, ChatCommand, ClientKind, NameMatch, OnlineCounts, OnlinePlayer, UnblockPlan,
    UnblockReply, WhisperRoute, MAX_BLOCKS,
};

fn names(list: &[&str]) -> Vec<String> {
    list.iter().map(|s| s.to_string()).collect()
}

#[test]
fn commands_must_be_whole_words_and_are_trimmed() {
    assert_eq!(strip_command("  /notice   Server restart soon  ", "/notice"), Some("Server restart soon".to_string()));
    assert_eq!(strip_command("/notice", "/notice"), Some(String::new()));
    assert_eq!(strip_command("/noticeboard up", "/notice"), None);
    assert_eq!(strip_command("hello /notice", "/notice"), None);
}

#[test]
fn whisper_commands_split_name_and_message() {
    assert_eq!(parse_whisper_command("/w Bob  hi there "), Some(("Bob".to_string(), "hi there".to_string())));
    assert_eq!(parse_whisper_command("/whisper Bob"), Some(("Bob".to_string(), String::new())));
    assert_eq!(parse_whisper_command("/w"), Some((String::new(), String::new())));
    assert_eq!(parse_whisper_command("/wave"), None);
    assert_eq!(parse_whisper_command("hello"), None);
}

#[test]
fn block_commands_list_block_and_unblock() {
    assert!(matches!(parse_block_command("/block"), Some(BlockCommand::List)));
    assert!(matches!(parse_block_command("/block Eve"), Some(BlockCommand::Block(n)) if n == "Eve"));
    assert!(matches!(parse_block_command("/unblock Eve"), Some(BlockCommand::Unblock(n)) if n == "Eve"));
    assert!(matches!(parse_block_command("/unblock"), Some(BlockCommand::Unblock(n)) if n.is_empty()));
    assert!(parse_block_command("/blocked").is_none());
}

#[test]
fn notice_sets_or_clears_the_banner() {
    assert_eq!(parse_notice_command("/notice Maintenance at noon"), Some(Some("Maintenance at noon".to_string())));
    assert_eq!(parse_notice_command("/notice   "), Some(None));
    assert_eq!(parse_notice_command("notice"), None);
}

#[test]
fn chat_lines_are_classified_in_order() {
    assert!(matches!(classify_chat_message("/notice hi"), ChatCommand::Notice(Some(n)) if n == "hi"));
    assert!(matches!(classify_chat_message(" /escape "), ChatCommand::Escape));
    assert!(matches!(classify_chat_message("/who"), ChatCommand::Who));
    assert!(matches!(classify_chat_message("/give  iron_sword "), ChatCommand::Give(i) if i == "iron_sword"));
    assert!(matches!(classify_chat_message(" /give iron_sword"), ChatCommand::Say));
    assert!(matches!(classify_chat_message("/block Eve"), ChatCommand::Block(BlockCommand::Block(n)) if n == "Eve"));
    assert!(matches!(classify_chat_message("/w Bob hi"), ChatCommand::Whisper(n, m) if n == "Bob" && m == "hi"));
    assert!(matches!(classify_chat_message("hello all"), ChatCommand::Say));
}

#[test]
fn who_counts_clients_and_npcs() {
    let players = vec![
        OnlinePlayer { is_official_npc: false, client_kind: ClientKind::Web },
        OnlinePlayer { is_official_npc: false, client_kind: ClientKind::Web },
        OnlinePlayer { is_official_npc: false, client_kind: ClientKind::Cli },
        OnlinePlayer { is_official_npc: true, client_kind: ClientKind::Web },
    ];
    let counts = OnlineCounts::tally(&players);
    assert_eq!((counts.web, counts.cli, counts.other, counts.official_npc), (2, 1, 0, 1));
    assert_eq!(counts.describe(), "Online: 4 (2 web, 1 cli, 1 npc)");
    let mut more = players;
    more.push(OnlinePlayer { is_official_npc: false, client_kind: ClientKind::Unknown });
    let counts = OnlineCounts::tally(&more);
    assert_eq!(counts.describe(), "Online: 5 (2 web, 1 cli, 1 other, 1 npc)");
}

#[test]
fn names_resolve_exactly_first_then_by_case() {
    let list = names(&["Anna", "anna", "Bob"]);
    assert!(matches!(match_name(&list, "anna"), NameMatch::Unique(1)));
    assert!(matches!(match_name(&list, "ANNA"), NameMatch::Ambiguous));
    assert!(matches!(match_name(&list, "bob"), NameMatch::Unique(2)));
    assert!(matches!(match_name(&list, "Carl"), NameMatch::Nobody));
}

#[test]
fn whispers_are_routed_or_answered() {
    let ids = vec![1u128, 2, 3];
    let list = names(&["Anna", "Bob", "bob"]);
    assert!(matches!(route_whisper(1, "", "hi", &ids, &list), WhisperRoute::Usage));
    assert!(matches!(route_whisper(9, "Bob", "hi", &ids, &list), WhisperRoute::UnknownSender));
    assert!(matches!(route_whisper(1, "Zed", "hi", &ids, &list), WhisperRoute::NoOne));
    assert!(matches!(route_whisper(1, "BOB", "hi", &ids, &list), WhisperRoute::Several));
    assert!(matches!(route_whisper(1, "anna", "hi", &ids, &list), WhisperRoute::Yourself));
    assert!(matches!(route_whisper(1, "bob", "hi", &ids, &list),
        WhisperRoute::Deliver { from, to_id: 3, to } if from == "Anna" && to == "bob"));
    assert_eq!(whisper_reply(&WhisperRoute::Usage, ""), Some("Whisper: /w <name> <message>".to_string()));
    assert_eq!(whisper_reply(&WhisperRoute::NoOne, "Zed"), Some("Whisper: no one called Zed is here.".to_string()));
    assert_eq!(whisper_reply(&WhisperRoute::Several, "BOB"),
        Some("Whisper: several players match BOB; spell the name exactly.".to_string()));
    assert_eq!(whisper_reply(&WhisperRoute::Yourself, "anna"), Some("Whisper: that's you.".to_string()));
    assert_eq!(whisper_reply(&WhisperRoute::UnknownSender, "Bob"), None);
}

#[test]
fn blocked_senders_are_not_heard() {
    let mut lists = BlockLists::new();
    lists.set_player_blocks(2, names(&["Eve"]));
    assert!(lists.has_blocked(2, "Eve"));
    assert!(!lists.has_blocked(3, "Eve"));
    assert_eq!(lists.chat_recipients(&vec![1, 2, 3], "Eve"), vec![1, 3]);
    assert_eq!(lists.chat_recipients(&vec![1, 2, 3], "Anna"), vec![1, 2, 3]);
    lists.remove_player_blocks(2);
    assert_eq!(lists.chat_recipients(&vec![1, 2, 3], "Eve"), vec![1, 2, 3]);
}

#[test]
fn block_refusals_come_in_order() {
    let mut lists = BlockLists::new();
    assert!(matches!(lists.block_refusal(1, "Anna", "Anna", true), Some(BlockRefusal::Yourself)));
    assert!(matches!(lists.block_refusal(1, "Anna", "Eve", false), Some(BlockRefusal::NoCharacter)));
    assert!(lists.block_refusal(1, "Anna", "Eve", true).is_none());
    lists.add_block(1, "Eve".to_string());
    assert!(matches!(lists.block_refusal(1, "Anna", "Eve", true), Some(BlockRefusal::AlreadyBlocked)));
    for i in 1..MAX_BLOCKS {
        lists.add_block(1, format!("Name{i:03}"));
    }
    assert!(matches!(lists.block_refusal(1, "Anna", "Zed", true), Some(BlockRefusal::ListFull)));
}

#[test]
fn unblock_resolves_the_stored_name() {
    let mut lists = BlockLists::new();
    lists.set_player_blocks(1, names(&["Eve"]));
    assert!(matches!(lists.unblock_plan(1, ""), UnblockPlan::Usage));
    assert!(matches!(lists.unblock_plan(1, "Bob"), UnblockPlan::NotBlocked));
    assert!(matches!(lists.unblock_plan(1, "eve"), UnblockPlan::Remove(n) if n == "Eve"));
    lists.add_block(1, "Zed".to_string());
    assert_eq!(lists.describe_blocks(1), "Blocked: Eve, Zed");
    lists.remove_block(1, "Eve");
    lists.remove_block(1, "Zed");
    assert!(!lists.has_blocked(1, "Eve"));
    assert_eq!(lists.describe_blocks(1), "Block: no one is blocked. /block <name> mutes a player.");
}

#[test]
fn block_and_unblock_replies() {
    assert_eq!(block_reply(&BlockReply::NoSuchCharacter, "evE", "Eve"), "Block: no character named evE; spell the name exactly.");
    assert_eq!(block_reply(&BlockReply::ServerError, "Eve", "Eve"), "Block: server error, try again.");
    assert_eq!(block_reply(&BlockReply::Refused(BlockRefusal::NoCharacter), "Eve", "Eve"), "Block: server error, try again.");
    assert_eq!(block_reply(&BlockReply::Refused(BlockRefusal::Yourself), "Eve", "Eve"), "Block: that's you.");
    assert_eq!(block_reply(&BlockReply::Refused(BlockRefusal::AlreadyBlocked), "eve", "Eve"), "Block: Eve is already blocked.");
    assert_eq!(block_reply(&BlockReply::Refused(BlockRefusal::ListFull), "Eve", "Eve"),
        format!("Block: list is full ({MAX_BLOCKS}); /unblock someone first."));
    assert_eq!(block_reply(&BlockReply::Blocked, "eve", "Eve"),
        "Block: Eve is blocked; their chat and whispers are hidden. /unblock Eve undoes this.");
    assert_eq!(unblock_reply(&UnblockReply::Usage, "", ""), "Unblock: /unblock <name>");
    assert_eq!(unblock_reply(&UnblockReply::NotBlocked, "Bob", ""), "Unblock: Bob is not blocked.");
    assert_eq!(unblock_reply(&UnblockReply::ServerError, "Bob", "Bob"), "Unblock: server error, try again.");
    assert_eq!(unblock_reply(&UnblockReply::Unblocked, "eve", "Eve"), "Unblock: Eve is no longer blocked.");
}

#[test]
fn escape_is_refused_in_combat() {
    assert!(escape_refused(10_000, 9_000, 5_000));
    assert!(!escape_refused(20_000, 9_000, 5_000));
}
