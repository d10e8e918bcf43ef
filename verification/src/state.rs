//! The state that all connections share: the rooms and who is connected.
use crate::config::{ratelimit_text, Config, PublicChannel};
use crate::directory::{enumerates, texts, Directory};
use crate::effect::{emit, emit_all, nothing, shown, Effect, EffectView};
use crate::ratelimit::{limits_for, Mint, Ratelimiters, RatelimitersView};
use crate::room::{string_said, MetaDataView, Room, RoomMetaData, RoomView};
use crate::text::{
    decimal, decimal_text, json_string, list_of_strings, object_text, quote, strings_text, ObjectText,
};
use std::sync::Arc;
use vstd::prelude::*;

verus! {

/// A single IP's connection state.
pub struct ClientState {
    /// Number of connections by this client.
    pub connection_count: usize,
    /// Global ratelimiters.
    pub ratelimiters: Arc<Ratelimiters>,
}

/// What a client's state says.
pub struct ClientView {
    pub connection_count: nat,
    pub ratelimiters: RatelimitersView,
}

impl View for ClientState {
    type V = ClientView;

    open spec fn view(&self) -> ClientView {
        ClientView {
            connection_count: self.connection_count as nat,
            ratelimiters: (*self.ratelimiters)@,
        }
    }
}

/// What a configured channel says.
#[verifier::ext_equal]
pub struct ChannelView {
    pub name: Seq<char>,
    pub metadata: MetaDataView,
}

impl View for PublicChannel {
    type V = ChannelView;

    open spec fn view(&self) -> ChannelView {
        ChannelView {
            name: self.name@,
            metadata: MetaDataView {
                read_only: self.read_only,
                extra_info: string_said(self.extra_info),
                msg_freq_ratelimit: self.msg_freq_ratelimit,
                msg_size_ratelimit: self.msg_size_ratelimit,
            },
        }
    }
}

/// What a list of configured channels says.
pub open spec fn channels_said(channels: Seq<PublicChannel>) -> Seq<ChannelView> {
    channels.map_values(|c: PublicChannel| c@)
}

/// The room of a channel before anyone is in it.
pub open spec fn empty_room(channel: ChannelView) -> RoomView {
    RoomView {
        name: channel.name,
        public: true,
        metadata: channel.metadata,
        senders: Map::empty(),
    }
}

/// A room that a client makes, before anyone is in it.
pub open spec fn private_room(name: Seq<char>) -> RoomView {
    RoomView { name, public: false, metadata: plain_metadata(), senders: Map::empty() }
}

/// The metadata of a room that a client made.
pub open spec fn plain_metadata() -> MetaDataView {
    MetaDataView {
        read_only: false,
        extra_info: None,
        msg_freq_ratelimit: None,
        msg_size_ratelimit: None,
    }
}

/// The rooms at the start: one for each channel. Of two channels of one name the
/// later counts.
pub open spec fn configured_rooms(channels: Seq<ChannelView>) -> Map<Seq<char>, RoomView>
    decreases channels.len(),
{
    if channels.len() == 0 {
        Map::empty()
    } else {
        configured_rooms(channels.drop_last()).insert(
            channels.last().name,
            empty_room(channels.last()),
        )
    }
}

/// The rooms after a user came into one. A room that was not there is made.
pub open spec fn after_join(
    rooms: Map<Seq<char>, RoomView>,
    room: Seq<char>,
    id: Seq<char>,
    sender: u64,
) -> Map<Seq<char>, RoomView> {
    if rooms.contains_key(room) {
        rooms.insert(room, rooms[room].with_member(id, sender))
    } else {
        rooms.insert(room, private_room(room).with_member(id, sender))
    }
}

/// The rooms after a user left one. A room that is abandoned by that is given up.
pub open spec fn after_leave(
    rooms: Map<Seq<char>, RoomView>,
    room: Seq<char>,
    id: Seq<char>,
) -> Map<Seq<char>, RoomView> {
    if rooms[room].without_member(id).abandoned() {
        rooms.remove(room)
    } else {
        rooms.insert(room, rooms[room].without_member(id))
    }
}

/// The rooms after a channel was configured anew.
pub open spec fn after_channel(
    rooms: Map<Seq<char>, RoomView>,
    channel: ChannelView,
) -> Map<Seq<char>, RoomView> {
    if rooms.contains_key(channel.name) {
        rooms.insert(
            channel.name,
            RoomView { public: true, metadata: channel.metadata, ..rooms[channel.name] },
        )
    } else {
        rooms.insert(channel.name, empty_room(channel))
    }
}

/// The effects of configuring a channel anew: where that changes what a room is
/// like, its members are told.
pub open spec fn channel_effects(
    rooms: Map<Seq<char>, RoomView>,
    channel: ChannelView,
    effects: Seq<EffectView>,
) -> bool {
    if rooms.contains_key(channel.name) && rooms[channel.name].metadata != channel.metadata {
        after_channel(rooms, channel)[channel.name].retold(effects)
    } else {
        effects == Seq::<EffectView>::empty()
    }
}

/// The rooms after the listed channels were configured anew, one after the other.
pub open spec fn after_reload(
    rooms: Map<Seq<char>, RoomView>,
    channels: Seq<ChannelView>,
) -> Map<Seq<char>, RoomView>
    decreases channels.len(),
{
    if channels.len() == 0 {
        rooms
    } else {
        after_channel(after_reload(rooms, channels.drop_last()), channels.last())
    }
}

/// The effects of configuring the listed channels anew, one after the other.
pub open spec fn reload_effects(
    rooms: Map<Seq<char>, RoomView>,
    channels: Seq<ChannelView>,
    effects: Seq<EffectView>,
) -> bool
    decreases channels.len(),
{
    if channels.len() == 0 {
        effects == Seq::<EffectView>::empty()
    } else {
        exists|before: Seq<EffectView>, last: Seq<EffectView>|
            {
                &&& effects == #[trigger] (before + last)
                &&& reload_effects(rooms, channels.drop_last(), before)
                &&& channel_effects(
                    after_reload(rooms, channels.drop_last()),
                    channels.last(),
                    last,
                )
            }
    }
}

/// The effects for a user agent, where it is known.
pub open spec fn agent_effects(agent: Option<Seq<char>>, connected: bool) -> Seq<EffectView> {
    match agent {
        Some(name) => if connected {
            seq![EffectView::AgentConnected { agent: name }]
        } else {
            seq![EffectView::AgentDisconnected { agent: name }]
        },
        None => seq![],
    }
}

/// The ratelimiters that an address gets with its first connection, when `made` buckets
/// were made before.
pub open spec fn global_limits(config: Config, made: nat) -> RatelimitersView {
    limits_for(Some(config.msg_freq_ratelimit), Some(config.msg_size_ratelimit), made)
}

/// The clients after one more connection from `ip`, when `made` buckets were made before.
pub open spec fn after_connect(
    clients: Map<Seq<char>, ClientView>,
    config: Config,
    ip: Seq<char>,
    made: nat,
) -> Map<Seq<char>, ClientView> {
    if clients.contains_key(ip) {
        clients.insert(
            ip,
            ClientView {
                connection_count: clients[ip].connection_count + 1,
                ratelimiters: clients[ip].ratelimiters,
            },
        )
    } else {
        clients.insert(
            ip,
            ClientView { connection_count: 1, ratelimiters: global_limits(config, made) },
        )
    }
}

/// How many buckets were made after one more connection from `ip`: an address that was
/// not connected gets two.
pub open spec fn made_after_connect(
    clients: Map<Seq<char>, ClientView>,
    ip: Seq<char>,
    made: nat,
) -> nat {
    if clients.contains_key(ip) {
        made
    } else {
        made + 2
    }
}

/// Every address has buckets of its own, made among the first `made`.
pub open spec fn clients_apart(clients: Map<Seq<char>, ClientView>, made: nat) -> bool {
    &&& forall|ip: Seq<char>| #[trigger]
        clients.contains_key(ip) ==> clients[ip].ratelimiters.made_among(made)
    &&& forall|one: Seq<char>, other: Seq<char>| #[trigger]
        clients.contains_key(one) && #[trigger] clients.contains_key(other) && one != other
            ==> clients[one].ratelimiters.apart_from(clients[other].ratelimiters)
}

/// The clients after a connection from `ip` was closed.
pub open spec fn after_disconnect(
    clients: Map<Seq<char>, ClientView>,
    ip: Seq<char>,
) -> Map<Seq<char>, ClientView> {
    if clients[ip].connection_count == 1 {
        clients.remove(ip)
    } else {
        clients.insert(
            ip,
            ClientView {
                connection_count: (clients[ip].connection_count - 1) as nat,
                ratelimiters: clients[ip].ratelimiters,
            },
        )
    }
}

/// No room is kept without members unless it comes from the configuration.
pub open spec fn inhabited(rooms: Map<Seq<char>, RoomView>) -> bool {
    forall|name: Seq<char>| #[trigger] rooms.contains_key(name) ==> !rooms[name].abandoned()
}

/// The addresses that stay connected keep their buckets, not only the parameters of
/// these.
pub open spec fn keeps_buckets(
    before: Map<Seq<char>, ClientState>,
    after: Map<Seq<char>, ClientState>,
) -> bool {
    forall|ip: Seq<char>| #[trigger]
        before.contains_key(ip) && after.contains_key(ip) ==> after[ip].ratelimiters
            == before[ip].ratelimiters
}

/// How many connections `ip` has.
pub open spec fn connections_of(clients: Map<Seq<char>, ClientView>, ip: Seq<char>) -> nat {
    if clients.contains_key(ip) {
        clients[ip].connection_count
    } else {
        0
    }
}

/// What the rooms are.
pub open spec fn rooms_said(rooms: Directory<Room>) -> Map<Seq<char>, RoomView> {
    rooms@.map_values(|room: Room| room@)
}

/// Global state.
pub struct GlobalState {
    /// Configuration.
    pub config: Config,
    /// All rooms currently existing in the server.
    pub rooms: Directory<Room>,
    /// Current connection state from clients.
    pub connections: Directory<ClientState>,
    /// Where all ratelimiters come from.
    pub mint: Mint,
}

impl GlobalState {
    /// Rooms are kept under their names, and not without members unless they come from
    /// the configuration; an address is kept while it has connections, never has more
    /// than the configuration allows, and has buckets of its own, made as the
    /// configuration says.
    pub open spec fn wf(self) -> bool {
        &&& self.rooms.wf()
        &&& self.connections.wf()
        &&& forall|name: Seq<char>| #[trigger]
            self.rooms_view().contains_key(name) ==> self.rooms_view()[name].name == name
        &&& inhabited(self.rooms_view())
        &&& forall|ip: Seq<char>| #[trigger]
            self.clients_view().contains_key(ip) ==> 1 <= self.clients_view()[ip].connection_count
                <= self.config.connections_per_ip
        &&& forall|ip: Seq<char>| #[trigger]
            self.clients_view().contains_key(ip) ==> self.clients_view()[ip].ratelimiters.made_with(
                Some(self.config.msg_freq_ratelimit),
                Some(self.config.msg_size_ratelimit),
            )
        &&& clients_apart(self.clients_view(), self.mint@)
    }

    pub open spec fn rooms_view(self) -> Map<Seq<char>, RoomView> {
        rooms_said(self.rooms)
    }

    pub open spec fn clients_view(self) -> Map<Seq<char>, ClientView> {
        self.connections@.map_values(|client: ClientState| client@)
    }

    /// The state at the start: the configured rooms, and nobody connected. The
    /// channels are moved out of the configuration.
    pub fn new(config: Config) -> (state: Self)
        ensures
            state.wf(),
            state.rooms_view() == configured_rooms(channels_said(config.public_channels@)),
            state.clients_view() == Map::<Seq<char>, ClientView>::empty(),
            state.mint@ == 0,
            state.config.public_channels@.len() == 0,
            state.config == (Config { public_channels: state.config.public_channels, ..config }),
    {
        let mut rooms: Directory<Room> = Directory::new();
        let ghost channels = channels_said(config.public_channels@);
        let mut i: usize = 0;
        assert(rooms@.map_values(|room: Room| room@) =~= configured_rooms(channels.take(0)));
        while i < config.public_channels.len()
            invariant
                i <= config.public_channels.len(),
                rooms.wf(),
                channels == channels_said(config.public_channels@),
                rooms@.map_values(|room: Room| room@) == configured_rooms(channels.take(i as int)),
                forall|name: Seq<char>| #[trigger]
                    rooms@.contains_key(name) ==> rooms@[name]@.name == name && rooms@[name]@.public,
            decreases config.public_channels.len() - i,
        {
            let room = room_of(&config.public_channels[i]);
            let ghost before = rooms@;
            rooms.insert(config.public_channels[i].name.clone(), room);
            proof {
                let next = channels.take(i + 1);
                assert(next.drop_last() =~= channels.take(i as int));
                assert(next.last() == config.public_channels[i as int]@);
                assert(rooms@.map_values(|room: Room| room@) =~= before.map_values(
                    |room: Room| room@,
                ).insert(next.last().name, room@));
            }
            i = i + 1;
        }
        assert(channels.take(channels.len() as int) =~= channels);
        let mut config = config;
        config.public_channels = Vec::new();
        let state = GlobalState { config, rooms, connections: Directory::new(), mint: Mint::new() };
        assert(state.clients_view() =~= Map::<Seq<char>, ClientView>::empty());
        state
    }

    /// Increases the connection counter for the IP address and returns false if
    /// limit is exceeded, else true.
    pub fn client_connected(&mut self, ip: &str, agent: Option<String>) -> (outcome: (
        bool,
        Vec<Effect>,
    ))
        requires
            old(self).wf(),
        ensures
            final(self).wf(),
            final(self).config == old(self).config,
            final(self).rooms == old(self).rooms,
            outcome.0 == (connections_of(old(self).clients_view(), ip@)
                < old(self).config.connections_per_ip),
            keeps_buckets(old(self).connections@, final(self).connections@),
            old(self).connections@.contains_key(ip@) ==> final(self).connections@.contains_key(ip@)
                && final(self).connections@[ip@].ratelimiters
                == old(self).connections@[ip@].ratelimiters,
            final(self).connections@.remove(ip@) == old(self).connections@.remove(ip@),
            outcome.0 ==> final(self).clients_view() == after_connect(
                old(self).clients_view(),
                old(self).config,
                ip@,
                old(self).mint@,
            ),
            outcome.0 ==> final(self).mint@ == made_after_connect(
                old(self).clients_view(),
                ip@,
                old(self).mint@,
            ),
            !outcome.0 ==> final(self).mint@ == old(self).mint@,
            outcome.0 ==> shown(outcome.1@) == seq![EffectView::ConnectionOpened { ip: ip@ }]
                + agent_effects(string_said(agent), true),
            !outcome.0 ==> final(self).connections == old(self).connections,
            !outcome.0 ==> shown(outcome.1@) == Seq::<EffectView>::empty(),
    {
        let ghost before = self.clients_view();
        let open: usize = match self.connections.get(ip) {
            Some(client) => client.connection_count,
            None => 0,
        };
        if open >= self.config.connections_per_ip {
            return (false, nothing());
        }
        match self.connections.get_mut(ip) {
            Some(entry) => {
                entry.connection_count = entry.connection_count + 1;
            },
            None => {
                let ratelimiters = Arc::new(
                    Ratelimiters {
                        freq: Some(self.config.get_global_freq_ratelimiter(&mut self.mint)),
                        size: Some(self.config.get_global_size_ratelimiter(&mut self.mint)),
                    },
                );
                self.connections.insert(
                    ip.to_owned(),
                    ClientState { connection_count: 1, ratelimiters },
                );
            },
        }
        assert(self.clients_view() =~= after_connect(before, self.config, ip@, old(self).mint@));
        let mut effects = nothing();
        emit(&mut effects, Effect::ConnectionOpened { ip: ip.to_owned() });
        if let Some(agent) = agent {
            emit(&mut effects, Effect::AgentConnected { agent });
        }
        assert(shown(effects@) =~= seq![EffectView::ConnectionOpened { ip: ip@ }]
            + agent_effects(string_said(agent), true));
        (true, effects)
    }

    /// Decreases the connection counter for the IP address.
    pub fn client_disconnected(&mut self, ip: &str, agent: Option<String>) -> (effects: Vec<Effect>)
        requires
            old(self).wf(),
            old(self).clients_view().contains_key(ip@),
        ensures
            final(self).wf(),
            final(self).config == old(self).config,
            final(self).rooms == old(self).rooms,
            final(self).mint == old(self).mint,
            final(self).clients_view() == after_disconnect(old(self).clients_view(), ip@),
            keeps_buckets(old(self).connections@, final(self).connections@),
            final(self).connections@.contains_key(ip@)
                == (old(self).connections@[ip@].connection_count != 1),
            final(self).connections@.contains_key(ip@) ==> final(self).connections@[ip@].ratelimiters
                == old(self).connections@[ip@].ratelimiters,
            final(self).connections@.remove(ip@) == old(self).connections@.remove(ip@),
            shown(effects@) == seq![EffectView::ConnectionClosed { ip: ip@ }] + agent_effects(
                string_said(agent),
                false,
            ),
    {
        let ghost before = self.clients_view();
        let mut last = false;
        if let Some(entry) = self.connections.get_mut(ip) {
            entry.connection_count = entry.connection_count - 1;
            last = entry.connection_count == 0;
        }
        if last {
            let _gone = self.connections.remove(ip);
        }
        assert(self.clients_view() =~= after_disconnect(before, ip@));
        let mut effects = nothing();
        emit(&mut effects, Effect::ConnectionClosed { ip: ip.to_owned() });
        if let Some(agent) = agent {
            emit(&mut effects, Effect::AgentDisconnected { agent });
        }
        assert(shown(effects@) =~= seq![EffectView::ConnectionClosed { ip: ip@ }] + agent_effects(
            string_said(agent),
            false,
        ));
        effects
    }

    /// Lets a user into a room. A room that is not there is made.
    pub fn subscribe(&mut self, room: &str, id: &str, sender: u64) -> (effects: Vec<Effect>)
        requires
            old(self).wf(),
        ensures
            final(self).wf(),
            final(self).config == old(self).config,
            final(self).connections == old(self).connections,
            final(self).mint == old(self).mint,
            final(self).rooms_view() == after_join(old(self).rooms_view(), room@, id@, sender),
            room_before_join(old(self).rooms_view(), room@).welcomes(shown(effects@), id@, sender),
    {
        let ghost before = self.rooms_view();
        if !self.rooms.contains_key(room) {
            let made = Room::new(room.to_owned(), false, None, None, None);
            self.rooms.insert(room.to_owned(), made);
            assert(self.rooms_view() =~= before.insert(room@, room_before_join(before, room@)));
        }
        let ghost ready = self.rooms_view();
        assert(ready.contains_key(room@));
        assert(ready[room@] == room_before_join(before, room@));
        let effects = match self.rooms.get_mut(room) {
            Some(entry) => entry.subscribe(id, sender),
            None => nothing(),
        };
        assert(self.rooms_view() =~= ready.insert(
            room@,
            ready[room@].with_member(id@, sender),
        ));
        assert(self.rooms_view() =~= after_join(before, room@, id@, sender));
        effects
    }

    /// Lets a user out of a room, and gives the room up if it is abandoned by that.
    pub fn unsubscribe(&mut self, room: &str, id: &str) -> (effects: Vec<Effect>)
        requires
            old(self).wf(),
            old(self).rooms_view().contains_key(room@),
        ensures
            final(self).wf(),
            final(self).config == old(self).config,
            final(self).connections == old(self).connections,
            final(self).mint == old(self).mint,
            final(self).rooms_view() == after_leave(old(self).rooms_view(), room@, id@),
            old(self).rooms_view()[room@].dismisses(shown(effects@), id@),
    {
        let ghost before = self.rooms_view();
        let (effects, abandoned) = match self.rooms.get_mut(room) {
            Some(entry) => entry.unsubscribe(id),
            None => (nothing(), false),
        };
        assert(self.rooms_view() =~= before.insert(room@, before[room@].without_member(id@)));
        if abandoned {
            let _gone = self.rooms.remove(room);
        }
        assert(self.rooms_view() =~= after_leave(before, room@, id@));
        effects
    }

    /// Configures a channel anew: its room is made if it is not there, and its
    /// members are told where that changes what the room is like.
    fn reload_channel(&mut self, channel: &PublicChannel) -> (effects: Vec<Effect>)
        requires
            old(self).wf(),
        ensures
            final(self).wf(),
            final(self).config == old(self).config,
            final(self).connections == old(self).connections,
            final(self).mint == old(self).mint,
            final(self).rooms_view() == after_channel(old(self).rooms_view(), channel@),
            channel_effects(old(self).rooms_view(), channel@, shown(effects@)),
    {
        let ghost before = self.rooms_view();
        let metadata = RoomMetaData {
            read_only: channel.read_only,
            extra_info: channel.extra_info.clone(),
            msg_freq_ratelimit: channel.msg_freq_ratelimit,
            msg_size_ratelimit: channel.msg_size_ratelimit,
        };
        let name = channel.name.as_str();
        let (known, same) = match self.rooms.get(name) {
            Some(room) => (true, *room.metadata() == metadata),
            None => (false, false),
        };
        assert(known == before.contains_key(name@));
        assert(known ==> same == (before[name@].metadata == channel@.metadata));
        let effects = if !known {
            self.rooms.insert(channel.name.clone(), room_of(channel));
            nothing()
        } else {
            match self.rooms.get_mut(name) {
                Some(room) => {
                    room.publish();
                    if same {
                        nothing()
                    } else {
                        room.set_metadata(metadata);
                        room.resend_room_info()
                    }
                },
                None => nothing(),
            }
        };
        assert(self.rooms_view() =~= after_channel(before, channel@));
        effects
    }

    /// Takes the public channels of a configuration that was read again. Rooms that
    /// are not listed stay as they are.
    pub fn reload(&mut self, channels: &Vec<PublicChannel>) -> (effects: Vec<Effect>)
        requires
            old(self).wf(),
        ensures
            final(self).wf(),
            final(self).config == old(self).config,
            final(self).connections == old(self).connections,
            final(self).mint == old(self).mint,
            final(self).rooms_view() == after_reload(
                old(self).rooms_view(),
                channels_said(channels@),
            ),
            reload_effects(old(self).rooms_view(), channels_said(channels@), shown(effects@)),
    {
        let mut effects = nothing();
        let ghost before = self.rooms_view();
        let ghost said = channels_said(channels@);
        let mut i: usize = 0;
        assert(said.take(0) =~= Seq::<ChannelView>::empty());
        while i < channels.len()
            invariant
                i <= channels.len(),
                said == channels_said(channels@),
                self.wf(),
                self.config == old(self).config,
                self.connections == old(self).connections,
                self.mint == old(self).mint,
                self.rooms_view() == after_reload(before, said.take(i as int)),
                reload_effects(before, said.take(i as int), shown(effects@)),
            decreases channels.len() - i,
        {
            let ghost told = shown(effects@);
            let more = self.reload_channel(&channels[i]);
            let ghost last = shown(more@);
            emit_all(&mut effects, more);
            proof {
                let next = said.take(i + 1);
                assert(next.drop_last() =~= said.take(i as int));
                assert(next.last() == channels[i as int]@);
                assert(reload_effects(before, next.drop_last(), told));
                assert(channel_effects(after_reload(before, next.drop_last()), next.last(), last));
                assert(shown(effects@) == told + last);
                assert(reload_effects(before, next, shown(effects@)));
            }
            i = i + 1;
        }
        assert(said.take(channels.len() as int) =~= said);
        effects
    }

    /// What a client is told when it connects.
    pub fn hello(&self) -> (text: String)
        requires
            self.wf(),
        ensures
            self.greets(text@),
    {
        let names = self.rooms.keys();
        assert(self.rooms_view().dom() =~= self.rooms@.dom());
        assert(enumerates(texts(names@), self.rooms_view().dom()));
        greeting(&self.rooms, &names, &self.config)
    }

    /// The text greets a client with the public rooms, over some walk through the
    /// rooms, and with the limits.
    pub open spec fn greets(self, text: Seq<char>) -> bool {
        exists|walk: Seq<Seq<char>>| #[trigger]
            enumerates(walk, self.rooms_view().dom()) && text == greeting_text(
                self.rooms_view(),
                walk,
                self.config,
            )
    }
}

/// The room that a user comes into, before that. It is made if it is not there.
pub open spec fn room_before_join(rooms: Map<Seq<char>, RoomView>, room: Seq<char>) -> RoomView {
    if rooms.contains_key(room) {
        rooms[room]
    } else {
        private_room(room)
    }
}

/// The room is there and comes from the configuration.
pub open spec fn is_public(rooms: Map<Seq<char>, RoomView>, name: Seq<char>) -> bool {
    rooms.contains_key(name) && rooms[name].public
}

/// The public rooms among those listed: the ones that come from the configuration.
pub open spec fn public_rooms(
    rooms: Map<Seq<char>, RoomView>,
    names: Seq<Seq<char>>,
) -> Seq<Seq<char>>
    decreases names.len(),
{
    if names.len() == 0 {
        seq![]
    } else if is_public(rooms, names.last()) {
        public_rooms(rooms, names.drop_last()).push(names.last())
    } else {
        public_rooms(rooms, names.drop_last())
    }
}

/// The limits that clients are told.
pub open spec fn limit_fields(config: Config) -> Seq<(Seq<char>, Seq<char>)> {
    seq![
        ("connections_per_ip"@, decimal(config.connections_per_ip as nat)),
        ("msg_freq_ratelimit"@, ratelimit_text(config.msg_freq_ratelimit)),
        ("msg_size_ratelimit"@, ratelimit_text(config.msg_size_ratelimit)),
        ("max_message_size"@, decimal(config.max_message_size as nat)),
    ]
}

/// The members of the text that greets a client.
pub open spec fn greeting_fields(
    rooms: Map<Seq<char>, RoomView>,
    names: Seq<Seq<char>>,
    config: Config,
) -> Seq<(Seq<char>, Seq<char>)> {
    seq![
        ("type"@, json_string("hello"@)),
        ("public_rooms"@, strings_text(public_rooms(rooms, names))),
        ("config"@, object_text(true, limit_fields(config))),
    ]
}

/// What greets a client, given the rooms and the order in which they are looked at.
pub open spec fn greeting_text(
    rooms: Map<Seq<char>, RoomView>,
    names: Seq<Seq<char>>,
    config: Config,
) -> Seq<char> {
    object_text(true, greeting_fields(rooms, names, config))
}

/// What greets a client, given the rooms and the order in which they are looked at.
pub fn greeting(rooms: &Directory<Room>, names: &Vec<String>, config: &Config) -> (text: String)
    requires
        rooms.wf(),
    ensures
        text@ == greeting_text(rooms_said(*rooms), texts(names@), *config),
{
    let mut public: Vec<String> = Vec::new();
    let ghost all = texts(names@);
    let ghost said = rooms_said(*rooms);
    let mut i: usize = 0;
    assert(texts(public@) =~= public_rooms(said, all.take(0)));
    while i < names.len()
        invariant
            i <= names.len(),
            rooms.wf(),
            said == rooms_said(*rooms),
            all == texts(names@),
            texts(public@) == public_rooms(said, all.take(i as int)),
        decreases names.len() - i,
    {
        proof {
            assert(all.take(i + 1).drop_last() =~= all.take(i as int));
            assert(all.take(i + 1).last() == names[i as int]@);
        }
        let listed = match rooms.get(names[i].as_str()) {
            Some(room) => room.is_public(),
            None => false,
        };
        assert(listed == is_public(said, names[i as int]@));
        if listed {
            let ghost before = public@;
            public.push(names[i].clone());
            assert(texts(public@) =~= texts(before).push(names[i as int]@));
        }
        i = i + 1;
    }
    assert(all.take(names.len() as int) =~= all);
    let mut limits = ObjectText::new(true);
    limits.field("connections_per_ip", decimal_text(config.connections_per_ip as u64).as_str());
    limits.field("msg_freq_ratelimit", config.msg_freq_ratelimit.to_json().as_str());
    limits.field("msg_size_ratelimit", config.msg_size_ratelimit.to_json().as_str());
    limits.field("max_message_size", decimal_text(config.max_message_size as u64).as_str());
    assert(limits.fields() =~= limit_fields(*config));
    let mut object = ObjectText::new(true);
    object.field("type", quote("hello").as_str());
    object.field("public_rooms", list_of_strings(&public).as_str());
    object.field("config", limits.finish().as_str());
    assert(object.fields() =~= greeting_fields(said, all, *config));
    object.finish()
}

/// The room of a channel before anyone is in it.
fn room_of(channel: &PublicChannel) -> (room: Room)
    ensures
        room@ == empty_room(channel@),
{
    let mut room = Room::new(
        channel.name.clone(),
        channel.read_only,
        channel.extra_info.clone(),
        channel.msg_freq_ratelimit,
        channel.msg_size_ratelimit,
    );
    room.publish();
    room
}

} // verus!
