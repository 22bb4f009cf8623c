use incite::connection_service::ConnectionService;
use incite::response_service::ResponseService;
use incite::rpc::{hash_service_name, RPCService};
use incite::service_info::{
    exported_service_by_hash, imported_service_by_hash, ExportedServiceID, ImportedServiceID,
};

#[test]
fn service_util_hash_verification() {
    let test_one = "bnet.protocol.authentication.AuthenticationServer";
    let hash_one = hash_service_name(test_one);
    assert_eq!(233634817, hash_one);

    let test_two = "bnet.protocol.channel.ChannelSubscriber";
    let hash_two = hash_service_name(test_two);
    assert_eq!(3213656212, hash_two);
}

#[test]
fn service_hash_verification() {
    let test_one = "bnet.protocol.authentication.AuthenticationServer";
    let hash_one = hash_service_name(test_one);
    assert_eq!(233634817, hash_one);

    let test_two = "bnet.protocol.channel.ChannelSubscriber";
    let hash_two = hash_service_name(test_two);
    assert_eq!(3213656212, hash_two);

    let response_test = "bnet.protocol.ResponseService";
    let hash_response = hash_service_name(response_test);
    println!("{:} - {:}", hash_response, response_test);
}

#[test]
fn empty_name_hashes_to_offset_basis() {
    assert_eq!(hash_service_name(""), 0x811c9dc5);
}

#[test]
fn single_byte_hash() {
    // (0x811c9dc5 ^ 0x61) * 0x01000193 mod 2^32
    assert_eq!(hash_service_name("a"), 0xe40c292c);
}

/// Every service name listed with its hash hashes to that number.
#[test]
fn known_service_hashes() {
    let known: [(&str, u32); 32] = [
        ("bnet.protocol.connection.ConnectionService", 1698982289),
        ("bnet.protocol.authentication.AuthenticationServer", 233634817),
        ("bnet.protocol.game_utilities.GameUtilities", 1069623117),
        ("bnet.protocol.game_master.GameMaster", 2165092757),
        ("bnet.protocol.presence.PresenceService", 4194801407),
        ("bnet.protocol.channel.Channel", 3073563442),
        ("bnet.protocol.channel.ChannelOwner", 101490829),
        ("bnet.protocol.channel_invitation.ChannelInvitationService", 2198078984),
        ("bnet.protocol.notification.NotificationService", 213793859),
        ("bnet.protocol.friends.FriendsService", 2749215165),
        ("bnet.protocol.challenge.ChallengeService", 3686756121),
        ("bnet.protocol.account.AccountService", 1658456209),
        ("bnet.protocol.resources.Resources", 3971904954),
        ("bnet.protocol.achievements.AchievementsService", 1128824125),
        ("bnet.protocol.exchange.ExchangeService", 3612349579),
        ("bnet.protocol.report.ReportService", 2091868617),
        ("bnet.protocol.search.SearchService", 170173073),
        ("bnet.protocol.user_manager.UserManagerService", 1041835658),
        ("bnet.protocol.authentication.AuthenticationClient", 1898188341),
        ("bnet.protocol.channel_invitation.ChannelInvitationNotify", 4035247136),
        ("bnet.protocol.channel.ChannelSubscriber", 3213656212),
        ("bnet.protocol.notification.NotificationListener", 3788189352),
        ("bnet.protocol.friends.FriendsNotify", 1864735251),
        ("bnet.protocol.challenge.ChallengeNotify", 3151632159),
        ("bnet.protocol.account.AccountNotify", 1423956503),
        ("bnet.protocol.achievements.AchievementsNotify", 3571241107),
        ("bnet.protocol.diag.DiagService", 3111080599),
        ("bnet.protocol.exchange.ExchangeNotify", 376431777),
        ("bnet.protocol.user_manager.UserManagerNotify", 3162975266),
        ("bnet.protocol.achievements.AchievementsUtils", 689160787),
        ("bnet.protocol.game_master.GameFactorySubscriber", 3338259653),
        ("bnet.protocol.game_master.GameRequestSubscriber", 3826086206),
    ];
    for (name, hash) in known.iter() {
        assert_eq!(hash_service_name(name), *hash, "{}", name);
    }
}

#[test]
fn service_hashes_match_their_names() {
    assert_eq!(ConnectionService::get_hash(), 1698982289);
    assert_eq!(ConnectionService::get_name(), "bnet.protocol.connection.ConnectionService");
    assert_eq!(ConnectionService::get_id(), 0);
    assert_eq!(ResponseService::get_hash(), 3625566374);
    assert_eq!(ResponseService::get_name(), "bnet.protocol.ResponseService");
    assert_eq!(ResponseService::get_id(), 254);
}

#[test]
fn exported_table_lookup() {
    assert_eq!(exported_service_by_hash(1698982289), Some(ExportedServiceID::ConnectionService));
    assert_eq!(exported_service_by_hash(233634817), Some(ExportedServiceID::AuthenticationServer));
    assert_eq!(exported_service_by_hash(3625566374), Some(ExportedServiceID::ResponseService));
    assert_eq!(exported_service_by_hash(1041835658).map(|s| s.as_u32()), Some(17));
    assert_eq!(exported_service_by_hash(3625566374).map(|s| s.as_u32()), Some(254));
    // A client-side (imported) hash is not exported.
    assert_eq!(exported_service_by_hash(3213656212), None);
    assert_eq!(exported_service_by_hash(0), None);
}

#[test]
fn imported_table_lookup() {
    assert_eq!(imported_service_by_hash(3213656212), Some(ImportedServiceID::ChannelSubscriber));
    assert_eq!(imported_service_by_hash(3213656212).map(|s| s.as_u32()), Some(6));
    assert_eq!(imported_service_by_hash(3162975266).map(|s| s.as_u32()), Some(11));
    assert_eq!(imported_service_by_hash(1698982289), Some(ImportedServiceID::ConnectionService));
    assert_eq!(imported_service_by_hash(233634817), None);
}

/// Every hash in both tables is the hash of a name that maps back to it.
#[test]
fn table_keys_are_name_hashes() {
    let exported = [
        ("bnet.protocol.account.AccountService", 1),
        ("bnet.protocol.achievements.AchievementsService", 2),
        ("bnet.protocol.authentication.AuthenticationServer", 3),
        ("bnet.protocol.challenge.ChallengeService", 4),
        ("bnet.protocol.channel_invitation.ChannelInvitationService", 5),
        ("bnet.protocol.channel.Channel", 6),
        ("bnet.protocol.channel.ChannelOwner", 7),
        ("bnet.protocol.exchange.ExchangeService", 8),
        ("bnet.protocol.friends.FriendsService", 9),
        ("bnet.protocol.game_master.GameMaster", 10),
        ("bnet.protocol.game_utilities.GameUtilities", 11),
        ("bnet.protocol.notification.NotificationService", 12),
        ("bnet.protocol.presence.PresenceService", 13),
        ("bnet.protocol.report.ReportService", 14),
        ("bnet.protocol.resources.Resources", 15),
        ("bnet.protocol.search.SearchService", 16),
        ("bnet.protocol.user_manager.UserManagerService", 17),
        ("bnet.protocol.ResponseService", 254),
    ];
    for (name, id) in exported.iter() {
        let found = exported_service_by_hash(hash_service_name(name)).map(|s| s.as_u32());
        assert_eq!(found, Some(*id), "{}", name);
    }
    let imported = [
        ("bnet.protocol.account.AccountNotify", 1),
        ("bnet.protocol.achievements.AchievementsNotify", 2),
        ("bnet.protocol.authentication.AuthenticationClient", 3),
        ("bnet.protocol.challenge.ChallengeNotify", 4),
        ("bnet.protocol.channel_invitation.ChannelInvitationNotify", 5),
        ("bnet.protocol.channel.ChannelSubscriber", 6),
        ("bnet.protocol.exchange.ExchangeNotify", 7),
        ("bnet.protocol.diag.DiagService", 8),
        ("bnet.protocol.friends.FriendsNotify", 9),
        ("bnet.protocol.notification.NotificationListener", 10),
        ("bnet.protocol.user_manager.UserManagerNotify", 11),
        ("bnet.protocol.ResponseService", 254),
    ];
    for (name, id) in imported.iter() {
        let found = imported_service_by_hash(hash_service_name(name)).map(|s| s.as_u32());
        assert_eq!(found, Some(*id), "{}", name);
    }
}

#[test]
fn two_way_services() {
    for hash in [1698982289u32, 3625566374].iter() {
        let e = exported_service_by_hash(*hash).map(|s| s.as_u32());
        let i = imported_service_by_hash(*hash).map(|s| s.as_u32());
        assert!(e.is_some() && e == i);
    }
    // A one-way service of each table.
    assert!(exported_service_by_hash(233634817).is_some() && imported_service_by_hash(233634817).is_none());
    assert!(imported_service_by_hash(3111080599).is_some() && exported_service_by_hash(3111080599).is_none());
}

#[test]
fn exported_ids_are_distinct() {
    // Every exported id is distinct.
    let ids: Vec<u32> = [
        1698982289u32, 1658456209, 1128824125, 233634817, 3686756121, 2198078984, 3073563442, 101490829,
        3612349579, 2749215165, 2165092757, 1069623117, 213793859, 4194801407, 2091868617, 3971904954,
        170173073, 1041835658, 3625566374,
    ]
    .iter()
    .map(|h| exported_service_by_hash(*h).unwrap().as_u32())
    .collect();
    let mut sorted = ids.clone();
    sorted.sort();
    sorted.dedup();
    assert_eq!(sorted.len(), ids.len());
}
