//! A Discord server's configuration: the universe it belongs to and the
//! roles, categories and channels that the bot set up on it.
use vstd::prelude::*;
use vstd::std_specs::cmp::PartialEqSpecImpl;
use vstd::std_specs::convert::FromSpecImpl;
use crate::document::DocumentId;

verus! {

/// The kind of Discord entity an identifier names.
#[derive(Debug, Clone, Copy)]
pub enum IdType {
    Role,
    Channel,
    Category,
}

/// A Discord identifier with the kind of entity it names. Two identifiers
/// are equal when their numbers are, whatever their kinds.
#[derive(Debug, Clone, Copy)]
pub struct Id {
    pub id: u64,
    pub id_type: IdType,
}

impl From<(u64, IdType)> for Id {
    fn from(value: (u64, IdType)) -> (r: Self) {
        Id { id: value.0, id_type: value.1 }
    }
}

impl FromSpecImpl<(u64, IdType)> for Id {
    open spec fn obeys_from_spec() -> bool {
        true
    }

    open spec fn from_spec(v: (u64, IdType)) -> Id {
        Id { id: v.0, id_type: v.1 }
    }
}

impl From<u64> for Id {
    /// A bare number names a channel.
    fn from(value: u64) -> (r: Self) {
        Id { id: value, id_type: IdType::Channel }
    }
}

impl FromSpecImpl<u64> for Id {
    open spec fn obeys_from_spec() -> bool {
        true
    }

    open spec fn from_spec(v: u64) -> Id {
        Id { id: v, id_type: IdType::Channel }
    }
}

impl PartialEq for Id {
    fn eq(&self, other: &Self) -> (r: bool) {
        self.id == other.id
    }
}

impl PartialEqSpecImpl for Id {
    open spec fn obeys_eq_spec() -> bool {
        true
    }

    open spec fn eq_spec(&self, other: &Id) -> bool {
        self.id == other.id
    }
}

/// Whether two optional identifiers are equal as `Option<Id>`'s `==` says.
pub open spec fn same_id(a: Option<Id>, b: Option<Id>) -> bool {
    match (a, b) {
        (None, None) => true,
        (Some(x), Some(y)) => x.id == y.id,
        _ => false,
    }
}

/// The identifier fields of a server.
#[derive(Debug, Clone, Copy, PartialEq, Eq, Structural)]
pub enum ServerField {
    AdminRole,
    ModeratorRole,
    SpectatorRole,
    PlayerRole,
    EveryoneRole,
    AdminCategory,
    NrpCategory,
    RpCategory,
    RoadCategory,
    RpWikiChannel,
    LogChannel,
    ModerationChannel,
    CommandsChannel,
    NrpGeneralChannel,
    RpCharacterChannel,
    UniversalTimeChannel,
}

/// A server's configuration.
#[derive(Debug)]
pub struct Server {
    pub _id: DocumentId,
    pub universe_id: DocumentId,
    pub server_id: u64,
    pub admin_role_id: Option<Id>,
    pub moderator_role_id: Option<Id>,
    pub spectator_role_id: Option<Id>,
    pub player_role_id: Option<Id>,
    pub everyone_role_id: Option<Id>,
    pub admin_category_id: Option<Id>,
    pub nrp_category_id: Option<Id>,
    pub rp_category_id: Option<Id>,
    pub road_category_id: Option<Id>,
    pub rp_wiki_channel_id: Option<Id>,
    pub log_channel_id: Option<Id>,
    pub moderation_channel_id: Option<Id>,
    pub commands_channel_id: Option<Id>,
    pub nrp_general_channel_id: Option<Id>,
    pub rp_character_channel_id: Option<Id>,
    pub universal_time_channel_id: Option<Id>,
    pub universal_invite_url: Option<String>,
}

/// The value of one identifier field.
pub open spec fn field_of(s: Server, f: ServerField) -> Option<Id> {
    match f {
        ServerField::AdminRole => s.admin_role_id,
        ServerField::ModeratorRole => s.moderator_role_id,
        ServerField::SpectatorRole => s.spectator_role_id,
        ServerField::PlayerRole => s.player_role_id,
        ServerField::EveryoneRole => s.everyone_role_id,
        ServerField::AdminCategory => s.admin_category_id,
        ServerField::NrpCategory => s.nrp_category_id,
        ServerField::RpCategory => s.rp_category_id,
        ServerField::RoadCategory => s.road_category_id,
        ServerField::RpWikiChannel => s.rp_wiki_channel_id,
        ServerField::LogChannel => s.log_channel_id,
        ServerField::ModerationChannel => s.moderation_channel_id,
        ServerField::CommandsChannel => s.commands_channel_id,
        ServerField::NrpGeneralChannel => s.nrp_general_channel_id,
        ServerField::RpCharacterChannel => s.rp_character_channel_id,
        ServerField::UniversalTimeChannel => s.universal_time_channel_id,
    }
}

/// Whether a field holds a role (the others hold channels or categories).
pub open spec fn is_role_field(f: ServerField) -> bool {
    f == ServerField::AdminRole || f == ServerField::ModeratorRole || f == ServerField::SpectatorRole
        || f == ServerField::PlayerRole || f == ServerField::EveryoneRole
}

/// Every identifier field, in the order in which the server lists them.
pub open spec fn all_fields() -> Seq<ServerField> {
    seq![
        ServerField::AdminRole, ServerField::ModeratorRole, ServerField::SpectatorRole,
        ServerField::PlayerRole, ServerField::EveryoneRole, ServerField::AdminCategory,
        ServerField::NrpCategory, ServerField::RpCategory, ServerField::RoadCategory,
        ServerField::RpWikiChannel, ServerField::LogChannel, ServerField::ModerationChannel,
        ServerField::CommandsChannel, ServerField::NrpGeneralChannel, ServerField::RpCharacterChannel,
        ServerField::UniversalTimeChannel,
    ]
}

/// The fields that a rollback considers, in order: all but the everyone
/// role.
pub open spec fn rollback_order() -> Seq<ServerField> {
    seq![
        ServerField::AdminRole, ServerField::ModeratorRole, ServerField::SpectatorRole,
        ServerField::PlayerRole, ServerField::AdminCategory, ServerField::NrpCategory,
        ServerField::RpCategory, ServerField::RoadCategory, ServerField::RpWikiChannel,
        ServerField::LogChannel, ServerField::ModerationChannel, ServerField::CommandsChannel,
        ServerField::NrpGeneralChannel, ServerField::RpCharacterChannel, ServerField::UniversalTimeChannel,
    ]
}

/// The identifiers held by the given fields, in order, the empty ones left
/// out.
pub open spec fn ids_of(s: Server, fs: Seq<ServerField>) -> Seq<Id>
    decreases fs.len(),
{
    if fs.len() == 0 {
        Seq::empty()
    } else {
        match field_of(s, fs.last()) {
            Some(x) => ids_of(s, fs.drop_last()).push(x),
            None => ids_of(s, fs.drop_last()),
        }
    }
}

/// The fields, among `fs`, in which `s` differs from `snapshot`, in order.
pub open spec fn differing(s: Server, snapshot: Server, fs: Seq<ServerField>) -> Seq<ServerField>
    decreases fs.len(),
{
    if fs.len() == 0 {
        Seq::empty()
    } else if same_id(field_of(s, fs.last()), field_of(snapshot, fs.last())) {
        differing(s, snapshot, fs.drop_last())
    } else {
        differing(s, snapshot, fs.drop_last()).push(fs.last())
    }
}

/// A field kept by a snapshot: emptied when it names an entity that no
/// longer exists.
pub open spec fn checked_field(v: Option<Id>, existing: Seq<u64>) -> Option<Id> {
    match v {
        Some(x) => if existing.contains(x.id) { v } else { None },
        None => None,
    }
}

fn contains_u64(v: &Vec<u64>, x: u64) -> (b: bool)
    ensures
        b == v@.contains(x),
{
    let mut i: usize = 0;
    while i < v.len()
        invariant
            i <= v@.len(),
            forall|k: int| 0 <= k < i ==> v@[k] != x,
        decreases v@.len() - i,
    {
        if v[i] == x {
            assert(v@[i as int] == x);
            return true;
        }
        i = i + 1;
    }
    false
}

fn check_field(v: Option<Id>, existing: &Vec<u64>) -> (r: Option<Id>)
    ensures
        r == checked_field(v, existing@),
{
    match v {
        Some(x) => if contains_u64(existing, x.id) { v } else { None },
        None => None,
    }
}

fn all_fields_vec() -> (v: Vec<ServerField>)
    ensures
        v@ == all_fields(),
{
    let v = vec![
        ServerField::AdminRole, ServerField::ModeratorRole, ServerField::SpectatorRole,
        ServerField::PlayerRole, ServerField::EveryoneRole, ServerField::AdminCategory,
        ServerField::NrpCategory, ServerField::RpCategory, ServerField::RoadCategory,
        ServerField::RpWikiChannel, ServerField::LogChannel, ServerField::ModerationChannel,
        ServerField::CommandsChannel, ServerField::NrpGeneralChannel, ServerField::RpCharacterChannel,
        ServerField::UniversalTimeChannel,
    ];
    assert(v@ =~= all_fields());
    v
}

fn rollback_order_vec() -> (v: Vec<ServerField>)
    ensures
        v@ == rollback_order(),
{
    let v = vec![
        ServerField::AdminRole, ServerField::ModeratorRole, ServerField::SpectatorRole,
        ServerField::PlayerRole, ServerField::AdminCategory, ServerField::NrpCategory,
        ServerField::RpCategory, ServerField::RoadCategory, ServerField::RpWikiChannel,
        ServerField::LogChannel, ServerField::ModerationChannel, ServerField::CommandsChannel,
        ServerField::NrpGeneralChannel, ServerField::RpCharacterChannel, ServerField::UniversalTimeChannel,
    ];
    assert(v@ =~= rollback_order());
    v
}

impl Default for Server {
    /// A configuration with no identifier, no invitation and zeroed
    /// documents and server.
    fn default() -> (s: Self)
        ensures
            s._id == (DocumentId { value: 0 }),
            s.universe_id == (DocumentId { value: 0 }),
            s.server_id == 0,
            forall|f: ServerField| (field_of(s, f) is None),
            (s.universal_invite_url is None),
    {
        Server {
            _id: DocumentId { value: 0 },
            universe_id: DocumentId { value: 0 },
            server_id: 0,
            admin_role_id: None,
            moderator_role_id: None,
            spectator_role_id: None,
            player_role_id: None,
            everyone_role_id: None,
            admin_category_id: None,
            nrp_category_id: None,
            rp_category_id: None,
            road_category_id: None,
            rp_wiki_channel_id: None,
            log_channel_id: None,
            moderation_channel_id: None,
            commands_channel_id: None,
            nrp_general_channel_id: None,
            rp_character_channel_id: None,
            universal_time_channel_id: None,
            universal_invite_url: None,
        }
    }
}

impl Server {
    /// A copy of the configuration.
    pub fn clone(&self) -> (r: Self)
        ensures
            r == *self,
    {
        Server {
            _id: self._id,
            universe_id: self.universe_id,
            server_id: self.server_id,
            admin_role_id: self.admin_role_id,
            moderator_role_id: self.moderator_role_id,
            spectator_role_id: self.spectator_role_id,
            player_role_id: self.player_role_id,
            everyone_role_id: self.everyone_role_id,
            admin_category_id: self.admin_category_id,
            nrp_category_id: self.nrp_category_id,
            rp_category_id: self.rp_category_id,
            road_category_id: self.road_category_id,
            rp_wiki_channel_id: self.rp_wiki_channel_id,
            log_channel_id: self.log_channel_id,
            moderation_channel_id: self.moderation_channel_id,
            commands_channel_id: self.commands_channel_id,
            nrp_general_channel_id: self.nrp_general_channel_id,
            rp_character_channel_id: self.rp_character_channel_id,
            universal_time_channel_id: self.universal_time_channel_id,
            universal_invite_url: match &self.universal_invite_url {
                Some(u) => Some(u.clone()),
                None => None,
            },
        }
    }

    /// Sets the universe.
    pub fn universe_id(&mut self, universe_id: DocumentId)
        ensures
            *final(self) == (Server { universe_id, ..*old(self) }),
    {
        self.universe_id = universe_id;
    }

    /// Sets the Discord server.
    pub fn server_id(&mut self, server_id: u64)
        ensures
            *final(self) == (Server { server_id, ..*old(self) }),
    {
        self.server_id = server_id;
    }

    /// Sets the admin role.
    pub fn admin_role_id(&mut self, id: Id)
        ensures
            *final(self) == (Server { admin_role_id: Some(id), ..*old(self) }),
    {
        self.admin_role_id = Some(id);
    }

    /// Sets the moderator role.
    pub fn moderator_role_id(&mut self, id: Id)
        ensures
            *final(self) == (Server { moderator_role_id: Some(id), ..*old(self) }),
    {
        self.moderator_role_id = Some(id);
    }

    /// Sets the spectator role.
    pub fn spectator_role_id(&mut self, id: Id)
        ensures
            *final(self) == (Server { spectator_role_id: Some(id), ..*old(self) }),
    {
        self.spectator_role_id = Some(id);
    }

    /// Sets the player role.
    pub fn player_role_id(&mut self, id: Id)
        ensures
            *final(self) == (Server { player_role_id: Some(id), ..*old(self) }),
    {
        self.player_role_id = Some(id);
    }

    /// Sets the everyone role.
    pub fn everyone_role_id(&mut self, id: Id)
        ensures
            *final(self) == (Server { everyone_role_id: Some(id), ..*old(self) }),
    {
        self.everyone_role_id = Some(id);
    }

    /// Sets the admin category.
    pub fn admin_category_id(&mut self, id: Id)
        ensures
            *final(self) == (Server { admin_category_id: Some(id), ..*old(self) }),
    {
        self.admin_category_id = Some(id);
    }

    /// Sets the out-of-roleplay category.
    pub fn nrp_category_id(&mut self, id: Id)
        ensures
            *final(self) == (Server { nrp_category_id: Some(id), ..*old(self) }),
    {
        self.nrp_category_id = Some(id);
    }

    /// Sets the roleplay category.
    pub fn rp_category_id(&mut self, id: Id)
        ensures
            *final(self) == (Server { rp_category_id: Some(id), ..*old(self) }),
    {
        self.rp_category_id = Some(id);
    }

    /// Sets the road category.
    pub fn road_category_id(&mut self, id: Id)
        ensures
            *final(self) == (Server { road_category_id: Some(id), ..*old(self) }),
    {
        self.road_category_id = Some(id);
    }

    /// Sets the roleplay wiki channel.
    pub fn rp_wiki_channel_id(&mut self, id: Id)
        ensures
            *final(self) == (Server { rp_wiki_channel_id: Some(id), ..*old(self) }),
    {
        self.rp_wiki_channel_id = Some(id);
    }

    /// Sets the log channel.
    pub fn log_channel_id(&mut self, id: Id)
        ensures
            *final(self) == (Server { log_channel_id: Some(id), ..*old(self) }),
    {
        self.log_channel_id = Some(id);
    }

    /// Sets the moderation channel.
    pub fn moderation_channel_id(&mut self, id: Id)
        ensures
            *final(self) == (Server { moderation_channel_id: Some(id), ..*old(self) }),
    {
        self.moderation_channel_id = Some(id);
    }

    /// Sets the commands channel.
    pub fn commands_channel_id(&mut self, id: Id)
        ensures
            *final(self) == (Server { commands_channel_id: Some(id), ..*old(self) }),
    {
        self.commands_channel_id = Some(id);
    }

    /// Sets the out-of-roleplay general channel.
    pub fn nrp_general_channel_id(&mut self, id: Id)
        ensures
            *final(self) == (Server { nrp_general_channel_id: Some(id), ..*old(self) }),
    {
        self.nrp_general_channel_id = Some(id);
    }

    /// Sets the universal time channel.
    pub fn universal_time_channel_id(&mut self, id: Id)
        ensures
            *final(self) == (Server { universal_time_channel_id: Some(id), ..*old(self) }),
    {
        self.universal_time_channel_id = Some(id);
    }

    /// Sets the roleplay character channel.
    pub fn rp_character_channel_id(&mut self, id: Id)
        ensures
            *final(self) == (Server { rp_character_channel_id: Some(id), ..*old(self) }),
    {
        self.rp_character_channel_id = Some(id);
    }

    /// The value of one identifier field.
    pub fn field(&self, f: ServerField) -> (r: Option<Id>)
        ensures
            r == field_of(*self, f),
    {
        match f {
            ServerField::AdminRole => self.admin_role_id,
            ServerField::ModeratorRole => self.moderator_role_id,
            ServerField::SpectatorRole => self.spectator_role_id,
            ServerField::PlayerRole => self.player_role_id,
            ServerField::EveryoneRole => self.everyone_role_id,
            ServerField::AdminCategory => self.admin_category_id,
            ServerField::NrpCategory => self.nrp_category_id,
            ServerField::RpCategory => self.rp_category_id,
            ServerField::RoadCategory => self.road_category_id,
            ServerField::RpWikiChannel => self.rp_wiki_channel_id,
            ServerField::LogChannel => self.log_channel_id,
            ServerField::ModerationChannel => self.moderation_channel_id,
            ServerField::CommandsChannel => self.commands_channel_id,
            ServerField::NrpGeneralChannel => self.nrp_general_channel_id,
            ServerField::RpCharacterChannel => self.rp_character_channel_id,
            ServerField::UniversalTimeChannel => self.universal_time_channel_id,
        }
    }

    /// Sets one identifier field, the others unchanged.
    pub fn set_field(&mut self, f: ServerField, v: Option<Id>)
        ensures
            field_of(*final(self), f) == v,
            forall|g: ServerField| g != f ==> field_of(*final(self), g) == field_of(*old(self), g),
            final(self)._id == old(self)._id,
            final(self).universe_id == old(self).universe_id,
            final(self).server_id == old(self).server_id,
            final(self).universal_invite_url == old(self).universal_invite_url,
    {
        match f {
            ServerField::AdminRole => { self.admin_role_id = v; },
            ServerField::ModeratorRole => { self.moderator_role_id = v; },
            ServerField::SpectatorRole => { self.spectator_role_id = v; },
            ServerField::PlayerRole => { self.player_role_id = v; },
            ServerField::EveryoneRole => { self.everyone_role_id = v; },
            ServerField::AdminCategory => { self.admin_category_id = v; },
            ServerField::NrpCategory => { self.nrp_category_id = v; },
            ServerField::RpCategory => { self.rp_category_id = v; },
            ServerField::RoadCategory => { self.road_category_id = v; },
            ServerField::RpWikiChannel => { self.rp_wiki_channel_id = v; },
            ServerField::LogChannel => { self.log_channel_id = v; },
            ServerField::ModerationChannel => { self.moderation_channel_id = v; },
            ServerField::CommandsChannel => { self.commands_channel_id = v; },
            ServerField::NrpGeneralChannel => { self.nrp_general_channel_id = v; },
            ServerField::RpCharacterChannel => { self.rp_character_channel_id = v; },
            ServerField::UniversalTimeChannel => { self.universal_time_channel_id = v; },
        }
    }

    /// Every identifier the server holds, in the order of its fields.
    pub fn all_ids(&self) -> (r: Vec<Id>)
        ensures
            r@ == ids_of(*self, all_fields()),
    {
        let fs = all_fields_vec();
        let mut r: Vec<Id> = Vec::new();
        let mut i: usize = 0;
        assert(all_fields().take(0) =~= Seq::<ServerField>::empty());
        while i < fs.len()
            invariant
                fs@ == all_fields(),
                i <= fs@.len(),
                r@ == ids_of(*self, all_fields().take(i as int)),
            decreases fs@.len() - i,
        {
            assert(all_fields().take(i + 1).drop_last() =~= all_fields().take(i as int));
            match self.field(fs[i]) {
                Some(x) => { r.push(x); },
                None => {},
            }
            i = i + 1;
        }
        assert(all_fields().take(16) =~= all_fields());
        r
    }

    /// Whether one of the server's identifiers has the given number.
    pub fn contains_id(&self, id: u64) -> (b: bool)
        ensures
            b == exists|k: int| 0 <= k < ids_of(*self, all_fields()).len() && #[trigger] ids_of(*self, all_fields())[k].id == id,
    {
        let ids = self.all_ids();
        let mut i: usize = 0;
        while i < ids.len()
            invariant
                ids@ == ids_of(*self, all_fields()),
                i <= ids@.len(),
                forall|k: int| 0 <= k < i ==> (#[trigger] ids@[k]).id != id,
            decreases ids@.len() - i,
        {
            if ids[i].id == id {
                assert(ids@[i as int].id == id);
                return true;
            }
            i = i + 1;
        }
        false
    }

    /// The configuration with every role that is not among `role_ids`, and
    /// every channel or category that is not among `channel_ids`, emptied
    /// (the identifiers of the entities that the guild still has).
    pub fn snaphot(self, role_ids: &Vec<u64>, channel_ids: &Vec<u64>) -> (r: Server)
        ensures
            forall|f: ServerField| #[trigger] field_of(r, f) == checked_field(field_of(self, f), if is_role_field(f) { role_ids@ } else { channel_ids@ }),
            r._id == self._id,
            r.universe_id == self.universe_id,
            r.server_id == self.server_id,
            r.universal_invite_url == self.universal_invite_url,
    {
        let r = Server {
            _id: self._id,
            universe_id: self.universe_id,
            server_id: self.server_id,
            admin_role_id: check_field(self.admin_role_id, role_ids),
            moderator_role_id: check_field(self.moderator_role_id, role_ids),
            spectator_role_id: check_field(self.spectator_role_id, role_ids),
            player_role_id: check_field(self.player_role_id, role_ids),
            everyone_role_id: check_field(self.everyone_role_id, role_ids),
            admin_category_id: check_field(self.admin_category_id, channel_ids),
            nrp_category_id: check_field(self.nrp_category_id, channel_ids),
            rp_category_id: check_field(self.rp_category_id, channel_ids),
            road_category_id: check_field(self.road_category_id, channel_ids),
            rp_wiki_channel_id: check_field(self.rp_wiki_channel_id, channel_ids),
            log_channel_id: check_field(self.log_channel_id, channel_ids),
            moderation_channel_id: check_field(self.moderation_channel_id, channel_ids),
            commands_channel_id: check_field(self.commands_channel_id, channel_ids),
            nrp_general_channel_id: check_field(self.nrp_general_channel_id, channel_ids),
            rp_character_channel_id: check_field(self.rp_character_channel_id, channel_ids),
            universal_time_channel_id: check_field(self.universal_time_channel_id, channel_ids),
            universal_invite_url: self.universal_invite_url,
        };
        assert forall|f: ServerField| #[trigger] field_of(r, f) == checked_field(field_of(self, f), if is_role_field(f) { role_ids@ } else { channel_ids@ }) by {
            match f {
                ServerField::AdminRole => {},
                ServerField::ModeratorRole => {},
                ServerField::SpectatorRole => {},
                ServerField::PlayerRole => {},
                ServerField::EveryoneRole => {},
                ServerField::AdminCategory => {},
                ServerField::NrpCategory => {},
                ServerField::RpCategory => {},
                ServerField::RoadCategory => {},
                ServerField::RpWikiChannel => {},
                ServerField::LogChannel => {},
                ServerField::ModerationChannel => {},
                ServerField::CommandsChannel => {},
                ServerField::NrpGeneralChannel => {},
                ServerField::RpCharacterChannel => {},
                ServerField::UniversalTimeChannel => {},
            }
        }
        r
    }

    /// Empties the fields whose entities were deleted (a rollback's
    /// deletions that succeeded); every other field keeps what it held.
    pub fn clear_fields(&mut self, deleted: &Vec<ServerField>)
        ensures
            forall|g: ServerField| #[trigger] field_of(*final(self), g) == field_after_clear(*old(self), deleted@, g),
            final(self)._id == old(self)._id,
            final(self).universe_id == old(self).universe_id,
            final(self).server_id == old(self).server_id,
    {
        let mut i: usize = 0;
        while i < deleted.len()
            invariant
                i <= deleted@.len(),
                forall|g: ServerField| #[trigger] field_of(*self, g) == field_after_clear(*old(self), deleted@.take(i as int), g),
                self._id == old(self)._id,
                self.universe_id == old(self).universe_id,
                self.server_id == old(self).server_id,
            decreases deleted@.len() - i,
        {
            let f = deleted[i];
            self.set_field(f, None);
            proof {
                assert forall|g: ServerField| #[trigger] field_of(*self, g) == field_after_clear(*old(self), deleted@.take(i + 1), g) by {
                    let t = deleted@.take(i as int);
                    let t1 = deleted@.take(i + 1);
                    assert(t1 =~= t.push(f));
                    if t.contains(g) {
                        let k = choose|k: int| 0 <= k < t.len() && t[k] == g;
                        assert(t1[k] == g);
                    }
                    if g == f {
                        assert(t1[i as int] == g);
                    } else if t1.contains(g) {
                        let k = choose|k: int| 0 <= k < t1.len() && t1[k] == g;
                        assert(k < i);
                        assert(t[k] == g);
                    }
                }
            }
            i = i + 1;
        }
        assert(deleted@.take(deleted@.len() as int) =~= deleted@);
    }

    /// The fields that a rollback to `snapshot` deletes, in order: those, all
    /// but the everyone role, in which the configuration differs from the
    /// snapshot.
    pub fn rollback_fields(&self, snapshot: &Server) -> (r: Vec<ServerField>)
        ensures
            r@ == differing(*self, *snapshot, rollback_order()),
    {
        let fs = rollback_order_vec();
        let mut r: Vec<ServerField> = Vec::new();
        let mut i: usize = 0;
        assert(rollback_order().take(0) =~= Seq::<ServerField>::empty());
        while i < fs.len()
            invariant
                fs@ == rollback_order(),
                i <= fs@.len(),
                r@ == differing(*self, *snapshot, rollback_order().take(i as int)),
            decreases fs@.len() - i,
        {
            assert(rollback_order().take(i + 1).drop_last() =~= rollback_order().take(i as int));
            let f = fs[i];
            if self.field(f) != snapshot.field(f) {
                r.push(f);
            }
            i = i + 1;
        }
        assert(rollback_order().take(15) =~= rollback_order());
        r
    }
}


/// A snapshot only empties fields: each field of the snapshot is empty or
/// holds what the configuration held, and a field whose entity still exists
/// is kept.
pub proof fn lemma_snapshot_only_empties(s: Server, role_ids: Seq<u64>, channel_ids: Seq<u64>, f: ServerField)
    ensures
        ({
            let existing = if is_role_field(f) { role_ids } else { channel_ids };
            let v = checked_field(field_of(s, f), existing);
            &&& (v is None || v == field_of(s, f))
            &&& (field_of(s, f) matches Some(x) && existing.contains(x.id) ==> v == field_of(s, f))
        }),
{
}

proof fn lemma_differing_contains(s: Server, snapshot: Server, fs: Seq<ServerField>, f: ServerField)
    ensures
        differing(s, snapshot, fs).contains(f) <==> (fs.contains(f) && !same_id(field_of(s, f), field_of(snapshot, f))),
    decreases fs.len(),
{
    if fs.len() > 0 {
        lemma_differing_contains(s, snapshot, fs.drop_last(), f);
        let d = differing(s, snapshot, fs.drop_last());
        if fs.contains(f) && !fs.drop_last().contains(f) {
            let k = choose|k: int| 0 <= k < fs.len() && fs[k] == f;
            if k < fs.len() - 1 {
                assert(fs.drop_last()[k] == f);
            }
        }
        if fs.drop_last().contains(f) {
            let k = choose|k: int| 0 <= k < fs.drop_last().len() && fs.drop_last()[k] == f;
            assert(fs[k] == f);
        }
        if !same_id(field_of(s, fs.last()), field_of(snapshot, fs.last())) {
            assert(d.push(fs.last())[d.len() as int] == fs.last());
            if d.push(fs.last()).contains(f) && f != fs.last() {
                let k = choose|k: int| 0 <= k < d.push(fs.last()).len() && d.push(fs.last())[k] == f;
                assert(d[k] == f);
            }
            if d.contains(f) {
                let k = choose|k: int| 0 <= k < d.len() && d[k] == f;
                assert(d.push(fs.last())[k] == f);
            }
        }
        if fs.contains(f) && f == fs.last() {
            assert(fs[fs.len() - 1] == f);
        }
    }
}

/// A rollback deletes a field exactly when the configuration differs from
/// the snapshot there (the everyone role aside).
pub proof fn lemma_rollback_deletes_what_differs(s: Server, snapshot: Server, f: ServerField)
    requires
        f != ServerField::EveryoneRole,
    ensures
        differing(s, snapshot, rollback_order()).contains(f) <==> !same_id(field_of(s, f), field_of(snapshot, f)),
{
    lemma_differing_contains(s, snapshot, rollback_order(), f);
    let o = rollback_order();
    let k: int = match f {
        ServerField::AdminRole => 0,
        ServerField::ModeratorRole => 1,
        ServerField::SpectatorRole => 2,
        ServerField::PlayerRole => 3,
        ServerField::AdminCategory => 4,
        ServerField::NrpCategory => 5,
        ServerField::RpCategory => 6,
        ServerField::RoadCategory => 7,
        ServerField::RpWikiChannel => 8,
        ServerField::LogChannel => 9,
        ServerField::ModerationChannel => 10,
        ServerField::CommandsChannel => 11,
        ServerField::NrpGeneralChannel => 12,
        ServerField::RpCharacterChannel => 13,
        ServerField::UniversalTimeChannel => 14,
        ServerField::EveryoneRole => 0,
    };
    assert(o[k] == f);
}

/// A field after the fields `deleted` were emptied.
pub open spec fn field_after_clear(s: Server, deleted: Seq<ServerField>, g: ServerField) -> Option<Id> {
    if deleted.contains(g) { None } else { field_of(s, g) }
}

/// A rollback whose deletions all succeed empties every field in which the
/// configuration differed from the snapshot and leaves every other field
/// holding the snapshot's identifier (the everyone role aside).
pub proof fn lemma_rollback_restores_snapshot(s: Server, snapshot: Server, f: ServerField)
    requires
        f != ServerField::EveryoneRole,
    ensures
        !same_id(field_of(s, f), field_of(snapshot, f))
            ==> field_after_clear(s, differing(s, snapshot, rollback_order()), f) is None,
        same_id(field_of(s, f), field_of(snapshot, f))
            ==> same_id(field_after_clear(s, differing(s, snapshot, rollback_order()), f), field_of(snapshot, f)),
{
    lemma_rollback_deletes_what_differs(s, snapshot, f);
}

/// Whether an optional identifier has the given number.
pub open spec fn holds_id(v: Option<Id>, id: u64) -> bool {
    v matches Some(x) && x.id == id
}

proof fn lemma_ids_of_contains(s: Server, fs: Seq<ServerField>, id: u64)
    ensures
        (exists|k: int| 0 <= k < ids_of(s, fs).len() && #[trigger] ids_of(s, fs)[k].id == id)
            <==> (exists|j: int| 0 <= j < fs.len() && #[trigger] holds_id(field_of(s, fs[j]), id)),
    decreases fs.len(),
{
    if fs.len() > 0 {
        let t = fs.drop_last();
        lemma_ids_of_contains(s, t, id);
        let a = ids_of(s, t);
        let b = ids_of(s, fs);
        if exists|k: int| 0 <= k < b.len() && #[trigger] b[k].id == id {
            let k = choose|k: int| 0 <= k < b.len() && #[trigger] b[k].id == id;
            if k < a.len() {
                assert(a[k] == b[k]);
                let j = choose|j: int| 0 <= j < t.len() && #[trigger] holds_id(field_of(s, t[j]), id);
                assert(fs[j] == t[j]);
            } else {
                assert(holds_id(field_of(s, fs[fs.len() - 1]), id));
            }
        }
        if exists|j: int| 0 <= j < fs.len() && #[trigger] holds_id(field_of(s, fs[j]), id) {
            let j = choose|j: int| 0 <= j < fs.len() && #[trigger] holds_id(field_of(s, fs[j]), id);
            if j < t.len() {
                assert(t[j] == fs[j]);
                assert(holds_id(field_of(s, t[j]), id));
                let k = choose|k: int| 0 <= k < a.len() && #[trigger] a[k].id == id;
                assert(b[k] == a[k]);
            } else {
                assert(b[a.len() as int].id == id);
            }
        }
    }
}

/// A server contains an identifier exactly when one of its fields holds it.
pub proof fn lemma_contains_id_iff_held(s: Server, id: u64)
    ensures
        (exists|k: int| 0 <= k < ids_of(s, all_fields()).len() && #[trigger] ids_of(s, all_fields())[k].id == id)
            <==> (exists|f: ServerField| #[trigger] holds_id(field_of(s, f), id)),
{
    lemma_ids_of_contains(s, all_fields(), id);
    let fs = all_fields();
    if exists|f: ServerField| #[trigger] holds_id(field_of(s, f), id) {
        let f = choose|f: ServerField| #[trigger] holds_id(field_of(s, f), id);
        let j: int = match f {
            ServerField::AdminRole => 0,
            ServerField::ModeratorRole => 1,
            ServerField::SpectatorRole => 2,
            ServerField::PlayerRole => 3,
            ServerField::EveryoneRole => 4,
            ServerField::AdminCategory => 5,
            ServerField::NrpCategory => 6,
            ServerField::RpCategory => 7,
            ServerField::RoadCategory => 8,
            ServerField::RpWikiChannel => 9,
            ServerField::LogChannel => 10,
            ServerField::ModerationChannel => 11,
            ServerField::CommandsChannel => 12,
            ServerField::NrpGeneralChannel => 13,
            ServerField::RpCharacterChannel => 14,
            ServerField::UniversalTimeChannel => 15,
        };
        assert(fs[j] == f);
    }
}

} // verus!
