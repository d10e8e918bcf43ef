//! Rooms, their members and what the members are told.
use crate::config::{ratelimit_text, Ratelimit};
use crate::constants::{is_valid_room, valid_room_name};
use crate::directory::{
    dash_contents, dash_insert, dash_is_empty, dash_iter, dash_len, dash_new, dash_remove,
    entries_said, enumerates, keys_of, lemma_walk_len, texts, walks,
};
use crate::effect::{emit, nothing, shown, Effect, EffectView};
use crate::text::{
    bool_text, json_string, list_of_strings, object_text, quote, strings_text, ObjectText,
};
use dashmap::DashMap;
use vstd::prelude::*;

verus! {

/// Room information that a reload of the configuration can change.
#[derive(Debug)]
pub struct RoomMetaData {
    /// Whether or not this room is read-only.
    pub read_only: bool,
    /// The text of a JSON value that members are told about.
    pub extra_info: Option<String>,
    /// Ratelimit for message frequency.
    pub msg_freq_ratelimit: Option<Ratelimit>,
    /// Ratelimit for message size.
    pub msg_size_ratelimit: Option<Ratelimit>,
}

/// What a room's metadata says.
#[verifier::ext_equal]
pub struct MetaDataView {
    pub read_only: bool,
    pub extra_info: Option<Seq<char>>,
    pub msg_freq_ratelimit: Option<Ratelimit>,
    pub msg_size_ratelimit: Option<Ratelimit>,
}

/// What an optional string says.
pub open spec fn string_said(text: Option<String>) -> Option<Seq<char>> {
    match text {
        Some(t) => Some(t@),
        None => None,
    }
}

impl View for RoomMetaData {
    type V = MetaDataView;

    open spec fn view(&self) -> MetaDataView {
        MetaDataView {
            read_only: self.read_only,
            extra_info: string_said(self.extra_info),
            msg_freq_ratelimit: self.msg_freq_ratelimit,
            msg_size_ratelimit: self.msg_size_ratelimit,
        }
    }
}

/// Whether two optional ratelimits are the same.
fn same_ratelimit(a: &Option<Ratelimit>, b: &Option<Ratelimit>) -> (same: bool)
    ensures
        same == (a == b),
{
    match (a, b) {
        (Some(x), Some(y)) => *x == *y,
        (None, None) => true,
        _ => false,
    }
}

impl PartialEq for RoomMetaData {
    fn eq(&self, other: &Self) -> (same: bool) {
        let same_info = match (&self.extra_info, &other.extra_info) {
            (Some(mine), Some(theirs)) => *mine == *theirs,
            (None, None) => true,
            _ => false,
        };
        self.read_only == other.read_only && same_info && same_ratelimit(
            &self.msg_freq_ratelimit,
            &other.msg_freq_ratelimit,
        ) && same_ratelimit(&self.msg_size_ratelimit, &other.msg_size_ratelimit)
    }
}

impl vstd::std_specs::cmp::PartialEqSpecImpl for RoomMetaData {
    open spec fn obeys_eq_spec() -> bool {
        true
    }

    open spec fn eq_spec(&self, other: &Self) -> bool {
        self@ == other@
    }
}

/// The members of the text that tells about a room.
pub open spec fn room_info_fields(
    room: Seq<char>,
    metadata: MetaDataView,
    users: Seq<Seq<char>>,
) -> Seq<(Seq<char>, Seq<char>)> {
    seq![
        ("type"@, json_string("room_info"@)),
        ("room"@, json_string(room)),
        ("read_only"@, bool_text(metadata.read_only)),
        (
            "extra_info"@,
            match metadata.extra_info {
                Some(info) => info,
                None => "null"@,
            },
        ),
    ] + (match metadata.msg_freq_ratelimit {
        Some(limit) => seq![("msg_freq_ratelimit"@, ratelimit_text(limit))],
        None => seq![],
    }) + (match metadata.msg_size_ratelimit {
        Some(limit) => seq![("msg_size_ratelimit"@, ratelimit_text(limit))],
        None => seq![],
    }) + seq![("users"@, strings_text(users))]
}

/// What a member is told about a room and the other members.
pub open spec fn room_info_text(
    room: Seq<char>,
    metadata: MetaDataView,
    users: Seq<Seq<char>>,
) -> Seq<char> {
    object_text(true, room_info_fields(room, metadata, users))
}

/// What a member is told about a room and the other members.
pub fn room_info(room: &str, metadata: &RoomMetaData, users: &Vec<String>) -> (text: String)
    ensures
        text@ == room_info_text(room@, metadata@, texts(users@)),
{
    let mut object = ObjectText::new(true);
    object.field("type", quote("room_info").as_str());
    object.field("room", quote(room).as_str());
    object.field("read_only", if metadata.read_only { "true" } else { "false" });
    match &metadata.extra_info {
        Some(info) => object.field("extra_info", info.as_str()),
        None => object.field("extra_info", "null"),
    }
    if let Some(limit) = &metadata.msg_freq_ratelimit {
        object.field("msg_freq_ratelimit", limit.to_json().as_str());
    }
    if let Some(limit) = &metadata.msg_size_ratelimit {
        object.field("msg_size_ratelimit", limit.to_json().as_str());
    }
    object.field("users", list_of_strings(users).as_str());
    assert(object.fields() =~= room_info_fields(room@, metadata@, texts(users@)));
    object.finish()
}

/// What the members are told when a user came or left.
pub open spec fn announcement_text(
    what: Seq<char>,
    room: Seq<char>,
    user: Seq<char>,
) -> Seq<char> {
    object_text(
        true,
        seq![("type"@, json_string(what)), ("room"@, json_string(room)), ("user"@, json_string(user))],
    )
}

fn announcement(what: &str, room: &str, user: &str) -> (text: String)
    ensures
        text@ == announcement_text(what@, room@, user@),
{
    let mut object = ObjectText::new(true);
    object.field("type", quote(what).as_str());
    object.field("room", quote(room).as_str());
    object.field("user", quote(user).as_str());
    assert(object.fields() =~= seq![
        ("type"@, json_string(what@)),
        ("room"@, json_string(room@)),
        ("user"@, json_string(user@)),
    ]);
    object.finish()
}

/// A text sent to the listed members in turn, except to the one who sent it.
pub open spec fn deliveries(
    walk: Seq<(Seq<char>, u64)>,
    text: Seq<char>,
    sender: Option<Seq<char>>,
) -> Seq<EffectView>
    decreases walk.len(),
{
    if walk.len() == 0 {
        seq![]
    } else {
        let before = deliveries(walk.drop_last(), text, sender);
        if sender == Some(walk.last().0) {
            before
        } else {
            before.push(EffectView::Send { to: walk.last().1, text })
        }
    }
}

/// Sends a text to the listed members in turn, except to the one who sent it.
pub fn deliver(members: &Vec<(String, u64)>, text: &str, sender: Option<&str>) -> (effects: Vec<
    Effect,
>)
    ensures
        shown(effects@) == deliveries(
            entries_said(members@),
            text@,
            crate::model::said(sender),
        ),
{
    let mut effects = nothing();
    let ghost walk = entries_said(members@);
    let ghost from = crate::model::said(sender);
    let author = match sender {
        Some(id) => Some(id.to_owned()),
        None => None,
    };
    let mut i: usize = 0;
    while i < members.len()
        invariant
            i <= members.len(),
            walk == entries_said(members@),
            from == string_said(author),
            shown(effects@) == deliveries(walk.take(i as int), text@, from),
        decreases members.len() - i,
    {
        let own = match &author {
            Some(id) => *id == members[i].0,
            None => false,
        };
        proof {
            assert(walk.take(i + 1).drop_last() =~= walk.take(i as int));
            assert(walk.take(i + 1).last() == (members[i as int].0@, members[i as int].1));
        }
        if !own {
            emit(&mut effects, Effect::Send { to: members[i].1, text: text.to_owned() });
        }
        i = i + 1;
    }
    assert(walk.take(members.len() as int) =~= walk);
    effects
}

/// The listed users without `user`.
pub open spec fn others(users: Seq<Seq<char>>, user: Seq<char>) -> Seq<Seq<char>>
    decreases users.len(),
{
    if users.len() == 0 {
        seq![]
    } else if users.last() == user {
        others(users.drop_last(), user)
    } else {
        others(users.drop_last(), user).push(users.last())
    }
}

/// The listed members without `user`.
pub fn other_members(members: &Vec<(String, u64)>, user: &String) -> (users: Vec<String>)
    ensures
        texts(users@) == others(keys_of(entries_said(members@)), user@),
{
    let mut users: Vec<String> = Vec::new();
    let ghost all = keys_of(entries_said(members@));
    let mut i: usize = 0;
    assert(texts(users@) =~= others(all.take(0), user@));
    while i < members.len()
        invariant
            i <= members.len(),
            all == keys_of(entries_said(members@)),
            texts(users@) == others(all.take(i as int), user@),
        decreases members.len() - i,
    {
        proof {
            assert(all.take(i + 1).drop_last() =~= all.take(i as int));
            assert(all.take(i + 1).last() == members[i as int].0@);
        }
        if !(members[i].0 == *user) {
            let ghost before = users@;
            users.push(members[i].0.clone());
            assert(texts(users@) =~= texts(before).push(members[i as int].0@));
        }
        i = i + 1;
    }
    assert(all.take(members.len() as int) =~= all);
    users
}

/// The listed members told in turn about the room and about the others of `all`.
pub open spec fn retellings(
    walk: Seq<(Seq<char>, u64)>,
    all: Seq<Seq<char>>,
    room: Seq<char>,
    metadata: MetaDataView,
) -> Seq<EffectView>
    decreases walk.len(),
{
    if walk.len() == 0 {
        seq![]
    } else {
        retellings(walk.drop_last(), all, room, metadata).push(
            EffectView::Send {
                to: walk.last().1,
                text: room_info_text(room, metadata, others(all, walk.last().0)),
            },
        )
    }
}

/// Tells the listed members in turn about the room and about each other.
pub fn retell(members: &Vec<(String, u64)>, room: &str, metadata: &RoomMetaData) -> (effects: Vec<
    Effect,
>)
    ensures
        shown(effects@) == retellings(
            entries_said(members@),
            keys_of(entries_said(members@)),
            room@,
            metadata@,
        ),
{
    let mut effects = nothing();
    let ghost walk = entries_said(members@);
    let mut i: usize = 0;
    while i < members.len()
        invariant
            i <= members.len(),
            walk == entries_said(members@),
            shown(effects@) == retellings(walk.take(i as int), keys_of(walk), room@, metadata@),
        decreases members.len() - i,
    {
        let users = other_members(members, &members[i].0);
        let text = room_info(room, metadata, &users);
        proof {
            assert(walk.take(i + 1).drop_last() =~= walk.take(i as int));
            assert(walk.take(i + 1).last() == (members[i as int].0@, members[i as int].1));
        }
        emit(&mut effects, Effect::Send { to: members[i].1, text });
        i = i + 1;
    }
    assert(walk.take(members.len() as int) =~= walk);
    effects
}

/// A room that clients can connect to.
pub struct RoomInner {
    /// Room name.
    name: String,
    /// Whether the room comes from the configuration.
    public: bool,
    /// Room metadata.
    metadata: RoomMetaData,
    /// The channels of the subscribed peers, by peer ID.
    senders: DashMap<String, u64>,
}

/// A room that clients can connect to.
pub struct Room {
    inner: RoomInner,
}

/// What a room is: its name, whether it comes from the configuration, its metadata
/// and the channels of its members.
#[verifier::ext_equal]
pub struct RoomView {
    pub name: Seq<char>,
    pub public: bool,
    pub metadata: MetaDataView,
    pub senders: Map<Seq<char>, u64>,
}

impl View for Room {
    type V = RoomView;

    closed spec fn view(&self) -> RoomView {
        RoomView {
            name: self.inner.name@,
            public: self.inner.public,
            metadata: self.inner.metadata@,
            senders: dash_contents(self.inner.senders),
        }
    }
}

impl RoomView {
    /// The room with one more member.
    pub open spec fn with_member(self, id: Seq<char>, sender: u64) -> RoomView {
        RoomView { senders: self.senders.insert(id, sender), ..self }
    }

    /// The room without the member.
    pub open spec fn without_member(self, id: Seq<char>) -> RoomView {
        RoomView { senders: self.senders.remove(id), ..self }
    }

    /// Nobody is in the room, it does not come from the configuration, and clients can
    /// make it anew.
    pub open spec fn abandoned(self) -> bool {
        self.senders == Map::<Seq<char>, u64>::empty() && !self.public && valid_room_name(self.name)
    }

    /// The effects of sending a text to the members over some walk through them,
    /// counted where it has an author.
    pub open spec fn broadcasts(
        self,
        effects: Seq<EffectView>,
        text: Seq<char>,
        sender: Option<Seq<char>>,
    ) -> bool {
        exists|walk: Seq<(Seq<char>, u64)>| #[trigger]
            walks(walk, self.senders) && effects == self.broadcast_over(walk, text, sender)
    }

    /// The effects of sending a text to the members over the given walk through them.
    pub open spec fn broadcast_over(
        self,
        walk: Seq<(Seq<char>, u64)>,
        text: Seq<char>,
        sender: Option<Seq<char>>,
    ) -> Seq<EffectView> {
        (if sender is Some {
            seq![
                EffectView::MessageReceived,
                EffectView::MessagesSent { count: (self.senders.len() - 1) as nat },
            ]
        } else {
            seq![]
        }) + deliveries(walk, text, sender)
    }

    /// The effects of letting a user in: the members so far are told, then the
    /// room is counted.
    pub open spec fn welcomes(self, effects: Seq<EffectView>, id: Seq<char>, sender: u64) -> bool {
        exists|told: Seq<EffectView>|
            {
                &&& #[trigger] self.broadcasts(
                    told,
                    announcement_text("join"@, self.name, id),
                    None,
                )
                &&& effects == told.push(
                    EffectView::RoomConnections {
                        room: self.name,
                        count: self.with_member(id, sender).senders.len(),
                    },
                )
            }
    }

    /// The effects of letting a user go: the members left are told, then the room
    /// is counted.
    pub open spec fn dismisses(self, effects: Seq<EffectView>, id: Seq<char>) -> bool {
        exists|told: Seq<EffectView>|
            {
                &&& #[trigger] self.without_member(id).broadcasts(
                    told,
                    announcement_text("leave"@, self.name, id),
                    None,
                )
                &&& effects == told.push(
                    EffectView::RoomConnections {
                        room: self.name,
                        count: self.without_member(id).senders.len(),
                    },
                )
            }
    }

    /// The effects of telling every member about the room, over some walk through
    /// them.
    pub open spec fn retold(self, effects: Seq<EffectView>) -> bool {
        exists|walk: Seq<(Seq<char>, u64)>| #[trigger]
            walks(walk, self.senders) && effects == retellings(
                walk,
                keys_of(walk),
                self.name,
                self.metadata,
            )
    }
}

impl Room {
    /// Create a new room, which does not come from the configuration.
    pub fn new(
        name: String,
        read_only: bool,
        extra_info: Option<String>,
        msg_freq_ratelimit: Option<Ratelimit>,
        msg_size_ratelimit: Option<Ratelimit>,
    ) -> (room: Self)
        ensures
            room@ == (RoomView {
                name: name@,
                public: false,
                metadata: MetaDataView {
                    read_only,
                    extra_info: string_said(extra_info),
                    msg_freq_ratelimit,
                    msg_size_ratelimit,
                },
                senders: Map::empty(),
            }),
    {
        Room {
            inner: RoomInner {
                name,
                public: false,
                metadata: RoomMetaData {
                    read_only,
                    extra_info,
                    msg_freq_ratelimit,
                    msg_size_ratelimit,
                },
                senders: dash_new(),
            },
        }
    }

    /// Room name.
    pub fn name(&self) -> (name: &String)
        ensures
            name@ == self@.name,
    {
        &self.inner.name
    }

    /// Whether the room comes from the configuration.
    pub fn is_public(&self) -> (public: bool)
        ensures
            public == self@.public,
    {
        self.inner.public
    }

    /// Makes the room one of the configuration.
    pub fn publish(&mut self)
        ensures
            final(self)@ == (RoomView { public: true, ..old(self)@ }),
    {
        self.inner.public = true;
    }

    /// Room metadata.
    pub fn metadata(&self) -> (metadata: &RoomMetaData)
        ensures
            metadata@ == self@.metadata,
    {
        &self.inner.metadata
    }

    /// Gives the room other metadata.
    pub fn set_metadata(&mut self, metadata: RoomMetaData)
        ensures
            final(self)@ == (RoomView { metadata: metadata@, ..old(self)@ }),
    {
        self.inner.metadata = metadata;
    }

    /// Announce that a user joined this room.
    pub fn announce_join(&self, id: &str) -> (effects: Vec<Effect>)
        ensures
            self@.broadcasts(
                shown(effects@),
                announcement_text("join"@, self@.name, id@),
                None,
            ),
    {
        let text = announcement("join", self.inner.name.as_str(), id);
        self.broadcast(text.as_str(), None)
    }

    /// Announce that a user left this room.
    pub fn announce_leave(&self, id: &str) -> (effects: Vec<Effect>)
        ensures
            self@.broadcasts(
                shown(effects@),
                announcement_text("leave"@, self@.name, id@),
                None,
            ),
    {
        let text = announcement("leave", self.inner.name.as_str(), id);
        self.broadcast(text.as_str(), None)
    }

    /// Broadcast a message to all members, optionally providing a peer ID who
    /// sent this message.
    pub fn broadcast(&self, text: &str, sender: Option<&str>) -> (effects: Vec<Effect>)
        requires
            sender is Some ==> self@.senders != Map::<Seq<char>, u64>::empty(),
        ensures
            self@.broadcasts(shown(effects@), text@, crate::model::said(sender)),
    {
        let members = dash_iter(&self.inner.senders);
        let mut effects = nothing();
        if sender.is_some() {
            proof {
                lemma_walk_len(entries_said(members@), self@.senders);
                assert(self@.senders.dom().len() > 0) by {
                    if members@.len() == 0 {
                        assert(self@.senders =~= Map::<Seq<char>, u64>::empty());
                    }
                }
            }
            emit(&mut effects, Effect::MessageReceived);
            emit(&mut effects, Effect::MessagesSent { count: dash_len(&self.inner.senders) - 1 });
        }
        let sent = deliver(&members, text, sender);
        crate::effect::emit_all(&mut effects, sent);
        proof {
            let walk = entries_said(members@);
            assert(walks(walk, self@.senders));
            assert(shown(effects@) =~= self@.broadcast_over(
                walk,
                text@,
                crate::model::said(sender),
            ));
        }
        effects
    }

    /// Returns a list of subscribed peer IDs.
    pub fn subscribed(&self) -> (ids: Vec<String>)
        ensures
            enumerates(texts(ids@), self@.senders.dom()),
    {
        let members = dash_iter(&self.inner.senders);
        let mut ids: Vec<String> = Vec::new();
        let mut i: usize = 0;
        while i < members.len()
            invariant
                i <= members.len(),
                ids.len() == i,
                forall|j: int| 0 <= j < i ==> (#[trigger] ids[j])@ == members[j].0@,
            decreases members.len() - i,
        {
            ids.push(members[i].0.clone());
            i = i + 1;
        }
        assert(texts(ids@) =~= keys_of(entries_said(members@)));
        ids
    }

    /// Subscribe a peer to this room.
    pub fn subscribe(&mut self, id: &str, sender: u64) -> (effects: Vec<Effect>)
        ensures
            final(self)@ == old(self)@.with_member(id@, sender),
            old(self)@.welcomes(shown(effects@), id@, sender),
    {
        let mut effects = self.announce_join(id);
        let ghost told = shown(effects@);
        let _replaced = dash_insert(&mut self.inner.senders, id.to_owned(), sender);
        assert(self@ =~= old(self)@.with_member(id@, sender));
        emit(
            &mut effects,
            Effect::RoomConnections {
                room: self.inner.name.clone(),
                count: dash_len(&self.inner.senders),
            },
        );
        assert(old(self)@.broadcasts(
            told,
            announcement_text("join"@, old(self)@.name, id@),
            None,
        ));
        effects
    }

    /// Unsubscribe a peer from this room. Tells whether the room is to be given up.
    pub fn unsubscribe(&mut self, id: &str) -> (outcome: (Vec<Effect>, bool))
        ensures
            final(self)@ == old(self)@.without_member(id@),
            old(self)@.dismisses(shown(outcome.0@), id@),
            outcome.1 == final(self)@.abandoned(),
    {
        let _removed = dash_remove(&mut self.inner.senders, id);
        assert(self@ =~= old(self)@.without_member(id@));
        let mut effects = self.announce_leave(id);
        let ghost told = shown(effects@);
        let abandoned = dash_is_empty(&self.inner.senders) && !self.inner.public && is_valid_room(
            self.inner.name.as_str(),
        );
        emit(
            &mut effects,
            Effect::RoomConnections {
                room: self.inner.name.clone(),
                count: dash_len(&self.inner.senders),
            },
        );
        assert(old(self)@.without_member(id@).broadcasts(
            told,
            announcement_text("leave"@, old(self)@.name, id@),
            None,
        ));
        (effects, abandoned)
    }

    /// Send a new room-info to everyone.
    pub fn resend_room_info(&self) -> (effects: Vec<Effect>)
        ensures
            self@.retold(shown(effects@)),
    {
        let members = dash_iter(&self.inner.senders);
        let effects = retell(&members, self.inner.name.as_str(), &self.inner.metadata);
        assert(walks(entries_said(members@), self@.senders));
        effects
    }
}

} // verus!
