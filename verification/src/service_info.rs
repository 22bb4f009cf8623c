//! Which Battle.net services this server knows, by the hash of their name,
//! and the ids they are bound to.
//!
//! Exported services are the ones the server offers; the client asks for
//! them by hash and gets their ids back. Imported services are the ones
//! the client offers; their ids are fixed and the client must bind them
//! exactly so.
use vstd::prelude::*;

verus! {

/// Services the server exports (the client imports them).
#[derive(Debug, Clone, Copy, PartialEq, Eq, Structural)]
pub enum ExportedServiceID {
    ConnectionService,
    AccountService,
    AchievementsService,
    AuthenticationServer,
    ChallengeService,
    ChannelInvitationService,
    Channel,
    ChannelOwner,
    ExchangeService,
    FriendsService,
    GameMaster,
    GameUtilities,
    NotificationService,
    PresenceService,
    ReportService,
    Resources,
    SearchService,
    UserManagerService,
    ResponseService,
}

impl ExportedServiceID {
    /// The id the service is bound to on the wire.
    pub open spec fn spec_id(self) -> u32 {
        match self {
            ExportedServiceID::ConnectionService => 0,
            ExportedServiceID::AccountService => 1,
            ExportedServiceID::AchievementsService => 2,
            ExportedServiceID::AuthenticationServer => 3,
            ExportedServiceID::ChallengeService => 4,
            ExportedServiceID::ChannelInvitationService => 5,
            ExportedServiceID::Channel => 6,
            ExportedServiceID::ChannelOwner => 7,
            ExportedServiceID::ExchangeService => 8,
            ExportedServiceID::FriendsService => 9,
            ExportedServiceID::GameMaster => 10,
            ExportedServiceID::GameUtilities => 11,
            ExportedServiceID::NotificationService => 12,
            ExportedServiceID::PresenceService => 13,
            ExportedServiceID::ReportService => 14,
            ExportedServiceID::Resources => 15,
            ExportedServiceID::SearchService => 16,
            ExportedServiceID::UserManagerService => 17,
            ExportedServiceID::ResponseService => 254,
        }
    }

    pub fn as_u32(&self) -> (id: u32)
        ensures
            id == self.spec_id(),
    {
        match self {
            ExportedServiceID::ConnectionService => 0,
            ExportedServiceID::AccountService => 1,
            ExportedServiceID::AchievementsService => 2,
            ExportedServiceID::AuthenticationServer => 3,
            ExportedServiceID::ChallengeService => 4,
            ExportedServiceID::ChannelInvitationService => 5,
            ExportedServiceID::Channel => 6,
            ExportedServiceID::ChannelOwner => 7,
            ExportedServiceID::ExchangeService => 8,
            ExportedServiceID::FriendsService => 9,
            ExportedServiceID::GameMaster => 10,
            ExportedServiceID::GameUtilities => 11,
            ExportedServiceID::NotificationService => 12,
            ExportedServiceID::PresenceService => 13,
            ExportedServiceID::ReportService => 14,
            ExportedServiceID::Resources => 15,
            ExportedServiceID::SearchService => 16,
            ExportedServiceID::UserManagerService => 17,
            ExportedServiceID::ResponseService => 254,
        }
    }
}

/// The services_exported table: service name hash to service.
pub open spec fn services_exported() -> Map<u32, ExportedServiceID> {
    map![
        1698982289u32 => ExportedServiceID::ConnectionService,
        1658456209u32 => ExportedServiceID::AccountService,
        1128824125u32 => ExportedServiceID::AchievementsService,
        233634817u32 => ExportedServiceID::AuthenticationServer,
        3686756121u32 => ExportedServiceID::ChallengeService,
        2198078984u32 => ExportedServiceID::ChannelInvitationService,
        3073563442u32 => ExportedServiceID::Channel,
        101490829u32 => ExportedServiceID::ChannelOwner,
        3612349579u32 => ExportedServiceID::ExchangeService,
        2749215165u32 => ExportedServiceID::FriendsService,
        2165092757u32 => ExportedServiceID::GameMaster,
        1069623117u32 => ExportedServiceID::GameUtilities,
        213793859u32 => ExportedServiceID::NotificationService,
        4194801407u32 => ExportedServiceID::PresenceService,
        2091868617u32 => ExportedServiceID::ReportService,
        3971904954u32 => ExportedServiceID::Resources,
        170173073u32 => ExportedServiceID::SearchService,
        1041835658u32 => ExportedServiceID::UserManagerService,
        3625566374u32 => ExportedServiceID::ResponseService,
    ]
}

/// Looks a service up by the hash of its name.
pub fn exported_service_by_hash(hash: u32) -> (res: Option<ExportedServiceID>)
    ensures
        res == (if services_exported().dom().contains(hash) {
            Some(services_exported()[hash])
        } else {
            None
        }),
{
    match hash {
        1698982289 => Some(ExportedServiceID::ConnectionService),
        1658456209 => Some(ExportedServiceID::AccountService),
        1128824125 => Some(ExportedServiceID::AchievementsService),
        233634817 => Some(ExportedServiceID::AuthenticationServer),
        3686756121 => Some(ExportedServiceID::ChallengeService),
        2198078984 => Some(ExportedServiceID::ChannelInvitationService),
        3073563442 => Some(ExportedServiceID::Channel),
        101490829 => Some(ExportedServiceID::ChannelOwner),
        3612349579 => Some(ExportedServiceID::ExchangeService),
        2749215165 => Some(ExportedServiceID::FriendsService),
        2165092757 => Some(ExportedServiceID::GameMaster),
        1069623117 => Some(ExportedServiceID::GameUtilities),
        213793859 => Some(ExportedServiceID::NotificationService),
        4194801407 => Some(ExportedServiceID::PresenceService),
        2091868617 => Some(ExportedServiceID::ReportService),
        3971904954 => Some(ExportedServiceID::Resources),
        170173073 => Some(ExportedServiceID::SearchService),
        1041835658 => Some(ExportedServiceID::UserManagerService),
        3625566374 => Some(ExportedServiceID::ResponseService),
        _ => None,
    }
}

/// Services the server imports (the client exports them).
#[derive(Debug, Clone, Copy, PartialEq, Eq, Structural)]
pub enum ImportedServiceID {
    ConnectionService,
    AccountNotify,
    AchievementsNotify,
    AuthenticationClient,
    ChallengeNotify,
    ChannelInvitationNotify,
    ChannelSubscriber,
    ExchangeNotify,
    DiagService,
    FriendsNotify,
    NotificationListener,
    UserManagerNotify,
    ResponseService,
}

impl ImportedServiceID {
    /// The id the service is bound to on the wire.
    pub open spec fn spec_id(self) -> u32 {
        match self {
            ImportedServiceID::ConnectionService => 0,
            ImportedServiceID::AccountNotify => 1,
            ImportedServiceID::AchievementsNotify => 2,
            ImportedServiceID::AuthenticationClient => 3,
            ImportedServiceID::ChallengeNotify => 4,
            ImportedServiceID::ChannelInvitationNotify => 5,
            ImportedServiceID::ChannelSubscriber => 6,
            ImportedServiceID::ExchangeNotify => 7,
            ImportedServiceID::DiagService => 8,
            ImportedServiceID::FriendsNotify => 9,
            ImportedServiceID::NotificationListener => 10,
            ImportedServiceID::UserManagerNotify => 11,
            ImportedServiceID::ResponseService => 254,
        }
    }

    pub fn as_u32(&self) -> (id: u32)
        ensures
            id == self.spec_id(),
    {
        match self {
            ImportedServiceID::ConnectionService => 0,
            ImportedServiceID::AccountNotify => 1,
            ImportedServiceID::AchievementsNotify => 2,
            ImportedServiceID::AuthenticationClient => 3,
            ImportedServiceID::ChallengeNotify => 4,
            ImportedServiceID::ChannelInvitationNotify => 5,
            ImportedServiceID::ChannelSubscriber => 6,
            ImportedServiceID::ExchangeNotify => 7,
            ImportedServiceID::DiagService => 8,
            ImportedServiceID::FriendsNotify => 9,
            ImportedServiceID::NotificationListener => 10,
            ImportedServiceID::UserManagerNotify => 11,
            ImportedServiceID::ResponseService => 254,
        }
    }
}

/// The services_imported table: service name hash to service.
pub open spec fn services_imported() -> Map<u32, ImportedServiceID> {
    map![
        1698982289u32 => ImportedServiceID::ConnectionService,
        1423956503u32 => ImportedServiceID::AccountNotify,
        3571241107u32 => ImportedServiceID::AchievementsNotify,
        1898188341u32 => ImportedServiceID::AuthenticationClient,
        3151632159u32 => ImportedServiceID::ChallengeNotify,
        4035247136u32 => ImportedServiceID::ChannelInvitationNotify,
        3213656212u32 => ImportedServiceID::ChannelSubscriber,
        376431777u32 => ImportedServiceID::ExchangeNotify,
        3111080599u32 => ImportedServiceID::DiagService,
        1864735251u32 => ImportedServiceID::FriendsNotify,
        3788189352u32 => ImportedServiceID::NotificationListener,
        3162975266u32 => ImportedServiceID::UserManagerNotify,
        3625566374u32 => ImportedServiceID::ResponseService,
    ]
}

/// Looks a service up by the hash of its name.
pub fn imported_service_by_hash(hash: u32) -> (res: Option<ImportedServiceID>)
    ensures
        res == (if services_imported().dom().contains(hash) {
            Some(services_imported()[hash])
        } else {
            None
        }),
{
    match hash {
        1698982289 => Some(ImportedServiceID::ConnectionService),
        1423956503 => Some(ImportedServiceID::AccountNotify),
        3571241107 => Some(ImportedServiceID::AchievementsNotify),
        1898188341 => Some(ImportedServiceID::AuthenticationClient),
        3151632159 => Some(ImportedServiceID::ChallengeNotify),
        4035247136 => Some(ImportedServiceID::ChannelInvitationNotify),
        3213656212 => Some(ImportedServiceID::ChannelSubscriber),
        376431777 => Some(ImportedServiceID::ExchangeNotify),
        3111080599 => Some(ImportedServiceID::DiagService),
        1864735251 => Some(ImportedServiceID::FriendsNotify),
        3788189352 => Some(ImportedServiceID::NotificationListener),
        3162975266 => Some(ImportedServiceID::UserManagerNotify),
        3625566374 => Some(ImportedServiceID::ResponseService),
        _ => None,
    }
}

/// The services bound both ways (listed in both tables) are the connection
/// service and the response service, each with the same id on both sides.
pub proof fn lemma_two_way_services(hash: u32)
    ensures
        services_exported().dom().contains(hash) && services_imported().dom().contains(hash) <==> (
        hash == 1698982289 || hash == 3625566374),
        hash == 1698982289 ==> services_exported()[hash].spec_id() == 0
            && services_imported()[hash].spec_id() == 0,
        hash == 3625566374 ==> services_exported()[hash].spec_id() == 254
            && services_imported()[hash].spec_id() == 254,
{
}

} // verus!
