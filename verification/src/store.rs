//! Message store: the replicated data set.  A mapping from room to an
//! ordered message sequence, reconciled under the deterministic message
//! order so that peers applying the same updates converge.

use vstd::prelude::*;

verus! {

use crate::model::MsgModel;
use crate::model::has_id;
use crate::model::ids_unique;
use crate::model::lemma_room_insert_wf;
use crate::model::lemma_sorted_insert_position;
use crate::model::msg_lt;
use crate::model::chars_lt;
use crate::model::room_apply_all;
use crate::model::room_insert;
use crate::model::sorted;
use crate::session::SessionManager;

/// Who may find a room.  Rooms created implicitly by first reference are
/// public.
#[derive(Clone, Copy, PartialEq, Eq, Structural, Debug)]
pub enum Visibility {
    Public,
    Private,
}

/// A room: an identifier and its visibility.
pub struct Room {
    pub id: String,
    pub visibility: Visibility,
}

impl Clone for Room {
    fn clone(&self) -> (r: Self)
        ensures
            r == *self,
    {
        Room { id: self.id.clone(), visibility: self.visibility }
    }
}

/// A chat message.  Immutable once created: the store only inserts.
pub struct Message {
    pub id: u128,
    pub room_id: String,
    pub sender: String,
    pub body: String,
    pub logical_timestamp: u64,
    pub wall_clock: u64,
}

impl View for Message {
    type V = MsgModel;

    open spec fn view(&self) -> MsgModel {
        MsgModel {
            id: self.id,
            room: self.room_id@,
            sender: self.sender@,
            body: self.body@,
            logical_timestamp: self.logical_timestamp,
            wall_clock: self.wall_clock,
        }
    }
}

impl Clone for Message {
    fn clone(&self) -> (r: Self)
        ensures
            r == *self,
    {
        Message {
            id: self.id,
            room_id: self.room_id.clone(),
            sender: self.sender.clone(),
            body: self.body.clone(),
            logical_timestamp: self.logical_timestamp,
            wall_clock: self.wall_clock,
        }
    }
}

/// Store failures: local appends need a live session.
#[derive(Clone, Copy, PartialEq, Eq, Structural, Debug)]
pub enum StoreError {
    SessionNotActive,
}

/// Abstract value of a room with its ordered messages.
pub ghost struct RoomModel {
    pub id: Seq<char>,
    pub visibility: Visibility,
    pub msgs: Seq<MsgModel>,
}

/// Abstract state of the whole store.
pub ghost struct StoreModel {
    pub rooms: Seq<RoomModel>,
    pub local_peer: u64,
    pub local_counter: u64,
    pub outbox: Seq<MsgModel>,
}

/// The message values of a message sequence.
pub open spec fn view_msgs(s: Seq<Message>) -> Seq<MsgModel> {
    s.map_values(|m: Message| m@)
}

/// The messages of the first room with the given id; empty when the room
/// does not exist yet.
pub open spec fn room_msgs(rooms: Seq<RoomModel>, id: Seq<char>) -> Seq<MsgModel>
    decreases rooms.len(),
{
    if rooms.len() == 0 {
        Seq::empty()
    } else if rooms[0].id == id {
        rooms[0].msgs
    } else {
        room_msgs(rooms.drop_first(), id)
    }
}

/// Whether a room with the given id exists.
pub open spec fn has_room(rooms: Seq<RoomModel>, id: Seq<char>) -> bool {
    exists|i: int| 0 <= i < rooms.len() && rooms[i].id == id
}

/// Applying one message to the store: the room it addresses is created on
/// first reference, and the message goes to its reconciled position there.
pub open spec fn store_insert(rooms: Seq<RoomModel>, m: MsgModel) -> Seq<RoomModel>
    decreases rooms.len(),
{
    if rooms.len() == 0 {
        seq![
            RoomModel {
                id: m.room,
                visibility: Visibility::Public,
                msgs: room_insert(Seq::empty(), m),
            },
        ]
    } else if rooms[0].id == m.room {
        seq![
            RoomModel {
                id: rooms[0].id,
                visibility: rooms[0].visibility,
                msgs: room_insert(rooms[0].msgs, m),
            },
        ] + rooms.drop_first()
    } else {
        seq![rooms[0]] + store_insert(rooms.drop_first(), m)
    }
}

/// Well-formedness of the store: room ids unique, every room sorted with
/// unique message ids, and every message filed under the room it addresses.
pub open spec fn store_wf(s: StoreModel) -> bool {
    &&& forall|i: int, j: int|
        0 <= i < j < s.rooms.len() ==> #[trigger] s.rooms[i].id != #[trigger] s.rooms[j].id
    &&& forall|i: int| 0 <= i < s.rooms.len() ==> sorted(#[trigger] s.rooms[i].msgs)
    &&& forall|i: int| 0 <= i < s.rooms.len() ==> ids_unique(#[trigger] s.rooms[i].msgs)
    &&& forall|i: int, k: int|
        0 <= i < s.rooms.len() && 0 <= k < s.rooms[i].msgs.len() ==> (
        #[trigger] s.rooms[i].msgs[k]).room == s.rooms[i].id
}

/// A locally assigned message id: the peer identifier in the high half, the
/// per-store counter in the low half.  Peers that draw distinct identifiers
/// never collide.
pub open spec fn make_local_id(peer: u64, counter: u64) -> u128 {
    ((peer as u128) * 0x1_0000_0000_0000_0000u128 + (counter as u128)) as u128
}

/// The counter after assigning one id; it never wraps back into ids already
/// given out.
pub open spec fn bump(c: u64) -> u64 {
    if c < u64::MAX {
        (c + 1) as u64
    } else {
        c
    }
}

/// The greatest logical timestamp the sender has used in the sequence, or
/// zero.
pub open spec fn max_lt_in(s: Seq<MsgModel>, sender: Seq<char>) -> u64
    decreases s.len(),
{
    if s.len() == 0 {
        0
    } else {
        let rest = max_lt_in(s.drop_first(), sender);
        if s[0].sender == sender && s[0].logical_timestamp > rest {
            s[0].logical_timestamp
        } else {
            rest
        }
    }
}

/// The greatest logical timestamp the sender has used anywhere in the store.
pub open spec fn max_lt_rooms(rooms: Seq<RoomModel>, sender: Seq<char>) -> u64
    decreases rooms.len(),
{
    if rooms.len() == 0 {
        0
    } else {
        let head = max_lt_in(rooms[0].msgs, sender);
        let rest = max_lt_rooms(rooms.drop_first(), sender);
        if head > rest {
            head
        } else {
            rest
        }
    }
}

/// The sender's next logical timestamp: one past the greatest seen.
pub open spec fn next_lt(rooms: Seq<RoomModel>, sender: Seq<char>) -> u64 {
    bump(max_lt_rooms(rooms, sender))
}

/// Applying a message changes exactly the room it addresses, by the
/// reconciliation rule; every other room keeps its messages.  Together with
/// the room-level laws this carries convergence and idempotence to the
/// whole store.
pub proof fn lemma_store_insert_room_msgs(rooms: Seq<RoomModel>, m: MsgModel)
    ensures
        room_msgs(store_insert(rooms, m), m.room) == room_insert(room_msgs(rooms, m.room), m),
        forall|other: Seq<char>|
            other != m.room ==> #[trigger] room_msgs(store_insert(rooms, m), other) == room_msgs(
                rooms,
                other,
            ),
    decreases rooms.len(),
{
    let res = store_insert(rooms, m);
    if rooms.len() == 0 {
        assert(res.drop_first() =~= Seq::<RoomModel>::empty());
        assert(room_msgs(rooms, m.room) =~= Seq::<MsgModel>::empty());
        assert forall|other: Seq<char>| other != m.room implies #[trigger] room_msgs(res, other)
            == room_msgs(rooms, other) by {
            assert(room_msgs(res, other) == room_msgs(res.drop_first(), other));
        }
    } else if rooms[0].id == m.room {
        assert(res[0].id == m.room);
        assert(res.drop_first() =~= rooms.drop_first());
        assert forall|other: Seq<char>| other != m.room implies #[trigger] room_msgs(res, other)
            == room_msgs(rooms, other) by {
            assert(room_msgs(res, other) == room_msgs(res.drop_first(), other));
            assert(room_msgs(rooms, other) == room_msgs(rooms.drop_first(), other));
        }
    } else {
        lemma_store_insert_room_msgs(rooms.drop_first(), m);
        assert(res[0] == rooms[0]);
        assert(res.drop_first() =~= store_insert(rooms.drop_first(), m));
        assert(room_msgs(res, m.room) == room_msgs(res.drop_first(), m.room));
        assert(room_msgs(rooms, m.room) == room_msgs(rooms.drop_first(), m.room));
        assert forall|other: Seq<char>| other != m.room implies #[trigger] room_msgs(res, other)
            == room_msgs(rooms, other) by {
            if other != rooms[0].id {
                assert(room_msgs(res, other) == room_msgs(res.drop_first(), other));
                assert(room_msgs(rooms, other) == room_msgs(rooms.drop_first(), other));
            }
        }
    }
}

/// Membership in one room, for selecting a room's share of a delivery
/// stream.
pub open spec fn in_room(id: Seq<char>) -> spec_fn(MsgModel) -> bool {
    |m: MsgModel| m.room == id
}

/// Applying a whole delivery stream to the store, in order.
pub open spec fn store_apply_all(rooms: Seq<RoomModel>, ms: Seq<MsgModel>) -> Seq<RoomModel>
    decreases ms.len(),
{
    if ms.len() == 0 {
        rooms
    } else {
        store_apply_all(store_insert(rooms, ms[0]), ms.drop_first())
    }
}

/// Each room of the store evolves by its own share of the delivery stream:
/// applying the stream to the store and then reading a room is applying the
/// room's messages to that room.
pub proof fn lemma_store_apply_all_room(rooms: Seq<RoomModel>, ms: Seq<MsgModel>, id: Seq<char>)
    ensures
        room_msgs(store_apply_all(rooms, ms), id) == room_apply_all(
            room_msgs(rooms, id),
            ms.filter(in_room(id)),
        ),
    decreases ms.len(),
{
    reveal_with_fuel(Seq::filter, 2);
    let pred = in_room(id);
    if ms.len() == 0 {
        assert(ms.filter(pred) =~= Seq::<MsgModel>::empty());
    } else {
        let m = ms[0];
        let rest = ms.drop_first();
        lemma_store_insert_room_msgs(rooms, m);
        lemma_store_apply_all_room(store_insert(rooms, m), rest, id);
        assert(ms =~= seq![m] + rest);
        Seq::filter_distributes_over_add(seq![m], rest, pred);
        assert(seq![m].drop_last() =~= Seq::<MsgModel>::empty());
        if m.room == id {
            assert(seq![m].filter(pred) =~= seq![m]);
            assert(ms.filter(pred) =~= seq![m] + rest.filter(pred));
            assert((seq![m] + rest.filter(pred)).drop_first() =~= rest.filter(pred));
            assert(room_msgs(store_insert(rooms, m), id) == room_insert(room_msgs(rooms, id), m));
        } else {
            assert(seq![m].filter(pred) =~= Seq::<MsgModel>::empty());
            assert(ms.filter(pred) =~= rest.filter(pred));
        }
    }
}

/// Convergence at the store: two peers that apply the same set of messages
/// to the same starting store, each in its own delivery order, agree on
/// every room's ordered sequence.
pub proof fn lemma_store_convergence(
    rooms0: Seq<RoomModel>,
    ms1: Seq<MsgModel>,
    ms2: Seq<MsgModel>,
    id: Seq<char>,
)
    requires
        sorted(room_msgs(rooms0, id)),
        crate::model::id_coherent(room_msgs(rooms0, id) + ms1.filter(in_room(id))),
        forall|x: MsgModel| #![trigger ms1.contains(x)] #![trigger ms2.contains(x)]
            ms1.contains(x) <==> ms2.contains(x),
    ensures
        room_msgs(store_apply_all(rooms0, ms1), id) == room_msgs(store_apply_all(rooms0, ms2), id),
{
    let pred = in_room(id);
    lemma_store_apply_all_room(rooms0, ms1, id);
    lemma_store_apply_all_room(rooms0, ms2, id);
    assert forall|x: MsgModel|
        #![trigger ms1.filter(pred).contains(x)]
        #![trigger ms2.filter(pred).contains(x)]
        ms1.filter(pred).contains(x) <==> ms2.filter(pred).contains(x) by {
        if ms1.filter(pred).contains(x) {
            let i = choose|i: int| 0 <= i < ms1.filter(pred).len() && ms1.filter(pred)[i] == x;
            ms1.lemma_filter_pred(pred, i);
            ms1.lemma_filter_contains_rev(pred, x);
            let j = choose|j: int| 0 <= j < ms2.len() && ms2[j] == x;
            ms2.lemma_filter_contains(pred, j);
        }
        if ms2.filter(pred).contains(x) {
            let i = choose|i: int| 0 <= i < ms2.filter(pred).len() && ms2.filter(pred)[i] == x;
            ms2.lemma_filter_pred(pred, i);
            ms2.lemma_filter_contains_rev(pred, x);
            let j = choose|j: int| 0 <= j < ms1.len() && ms1[j] == x;
            ms1.lemma_filter_contains(pred, j);
        }
    }
    crate::model::lemma_convergence(room_msgs(rooms0, id), ms1.filter(pred), ms2.filter(pred));
}

struct RoomEntry {
    room: Room,
    msgs: Vec<Message>,
}

/// The replicated message store of one peer.
pub struct MessageStore {
    entries: Vec<RoomEntry>,
    local_peer: u64,
    local_counter: u64,
    outbox: Vec<Message>,
}

impl RoomEntry {
    spec fn model(&self) -> RoomModel {
        RoomModel {
            id: self.room.id@,
            visibility: self.room.visibility,
            msgs: view_msgs(self.msgs@),
        }
    }
}

impl View for MessageStore {
    type V = StoreModel;

    closed spec fn view(&self) -> StoreModel {
        StoreModel {
            rooms: self.entries@.map_values(|e: RoomEntry| e.model()),
            local_peer: self.local_peer,
            local_counter: self.local_counter,
            outbox: view_msgs(self.outbox@),
        }
    }
}

/// Strict order between two strings, by code point.
fn str_lt(a: &str, b: &str) -> (r: bool)
    ensures
        r == chars_lt(a@, b@),
{
    let la = a.unicode_len();
    let lb = b.unicode_len();
    let mut i: usize = 0;
    proof {
        assert(a@.skip(0) =~= a@);
        assert(b@.skip(0) =~= b@);
    }
    loop
        invariant
            0 <= i <= la,
            0 <= i <= lb,
            la == a@.len(),
            lb == b@.len(),
            chars_lt(a@, b@) == chars_lt(a@.skip(i as int), b@.skip(i as int)),
        ensures
            0 <= i <= la,
            0 <= i <= lb,
            chars_lt(a@, b@) == chars_lt(a@.skip(i as int), b@.skip(i as int)),
            i == lb || i == la || (a@[i as int] as u32) != (b@[i as int] as u32),
        decreases la - i,
    {
        if i == lb {
            break ;
        }
        if i == la {
            break ;
        }
        let ca = a.get_char(i);
        let cb = b.get_char(i);
        if (ca as u32) != (cb as u32) {
            break ;
        }
        proof {
            assert(a@.skip(i as int).drop_first() =~= a@.skip(i + 1));
            assert(b@.skip(i as int).drop_first() =~= b@.skip(i + 1));
            assert(a@.skip(i as int)[0] == a@[i as int]);
            assert(b@.skip(i as int)[0] == b@[i as int]);
        }
        i += 1;
    }
    if i == lb {
        proof {
            assert(b@.skip(i as int).len() == 0);
        }
        false
    } else if i == la {
        proof {
            assert(a@.skip(i as int).len() == 0);
            assert(b@.skip(i as int).len() > 0);
        }
        true
    } else {
        let ca = a.get_char(i);
        let cb = b.get_char(i);
        proof {
            assert(a@.skip(i as int)[0] == a@[i as int]);
            assert(b@.skip(i as int)[0] == b@[i as int]);
        }
        (ca as u32) < (cb as u32)
    }
}

/// Whether one message precedes another in the deterministic total order.
fn msg_before(a: &Message, b: &Message) -> (r: bool)
    ensures
        r == msg_lt(a@, b@),
{
    if a.logical_timestamp < b.logical_timestamp {
        true
    } else if a.logical_timestamp == b.logical_timestamp {
        if str_lt(a.sender.as_str(), b.sender.as_str()) {
            true
        } else if a.sender == b.sender {
            a.id < b.id
        } else {
            false
        }
    } else {
        false
    }
}

/// The larger of two counters.
pub open spec fn max64(a: u64, b: u64) -> u64 {
    if a > b {
        a
    } else {
        b
    }
}

proof fn lemma_room_msgs_found(rooms: Seq<RoomModel>, id: Seq<char>, i: int)
    requires
        0 <= i < rooms.len(),
        rooms[i].id == id,
        forall|k: int| 0 <= k < i ==> (#[trigger] rooms[k]).id != id,
    ensures
        room_msgs(rooms, id) == rooms[i].msgs,
    decreases i,
{
    if i > 0 {
        let tail = rooms.drop_first();
        assert forall|k: int| 0 <= k < i - 1 implies (#[trigger] tail[k]).id != id by {
            assert(tail[k] == rooms[k + 1]);
        }
        assert(tail[i - 1] == rooms[i]);
        lemma_room_msgs_found(tail, id, i - 1);
    }
}

proof fn lemma_room_msgs_absent(rooms: Seq<RoomModel>, id: Seq<char>)
    requires
        forall|k: int| 0 <= k < rooms.len() ==> (#[trigger] rooms[k]).id != id,
    ensures
        room_msgs(rooms, id) == Seq::<MsgModel>::empty(),
    decreases rooms.len(),
{
    if rooms.len() > 0 {
        let tail = rooms.drop_first();
        assert forall|k: int| 0 <= k < tail.len() implies (#[trigger] tail[k]).id != id by {
            assert(tail[k] == rooms[k + 1]);
        }
        lemma_room_msgs_absent(tail, id);
    }
}

proof fn lemma_store_insert_found(rooms: Seq<RoomModel>, m: MsgModel, i: int)
    requires
        0 <= i < rooms.len(),
        rooms[i].id == m.room,
        forall|k: int| 0 <= k < i ==> (#[trigger] rooms[k]).id != m.room,
    ensures
        store_insert(rooms, m) == rooms.update(
            i,
            RoomModel {
                id: rooms[i].id,
                visibility: rooms[i].visibility,
                msgs: room_insert(rooms[i].msgs, m),
            },
        ),
    decreases i,
{
    if i == 0 {
        assert(store_insert(rooms, m) =~= rooms.update(
            0,
            RoomModel {
                id: rooms[0].id,
                visibility: rooms[0].visibility,
                msgs: room_insert(rooms[0].msgs, m),
            },
        ));
    } else {
        let tail = rooms.drop_first();
        assert(rooms[0].id != m.room);
        assert forall|k: int| 0 <= k < i - 1 implies (#[trigger] tail[k]).id != m.room by {
            assert(tail[k] == rooms[k + 1]);
        }
        assert(tail[i - 1] == rooms[i]);
        lemma_store_insert_found(tail, m, i - 1);
        assert(store_insert(rooms, m) =~= rooms.update(
            i,
            RoomModel {
                id: rooms[i].id,
                visibility: rooms[i].visibility,
                msgs: room_insert(rooms[i].msgs, m),
            },
        ));
    }
}

proof fn lemma_store_insert_absent(rooms: Seq<RoomModel>, m: MsgModel)
    requires
        forall|k: int| 0 <= k < rooms.len() ==> (#[trigger] rooms[k]).id != m.room,
    ensures
        store_insert(rooms, m) == rooms + seq![
            RoomModel { id: m.room, visibility: Visibility::Public, msgs: seq![m] },
        ],
    decreases rooms.len(),
{
    if rooms.len() == 0 {
        assert(!has_id(Seq::<MsgModel>::empty(), m.id));
        assert(room_insert(Seq::<MsgModel>::empty(), m) =~= seq![m]);
        assert(store_insert(rooms, m) =~= rooms + seq![
            RoomModel { id: m.room, visibility: Visibility::Public, msgs: seq![m] },
        ]);
    } else {
        let tail = rooms.drop_first();
        assert forall|k: int| 0 <= k < tail.len() implies (#[trigger] tail[k]).id != m.room by {
            assert(tail[k] == rooms[k + 1]);
        }
        lemma_store_insert_absent(tail, m);
        assert(store_insert(rooms, m) =~= rooms + seq![
            RoomModel { id: m.room, visibility: Visibility::Public, msgs: seq![m] },
        ]);
    }
}

fn insert_into_room(msgs: &mut Vec<Message>, message: Message)
    requires
        sorted(view_msgs(old(msgs)@)),
        ids_unique(view_msgs(old(msgs)@)),
    ensures
        view_msgs(final(msgs)@) == room_insert(view_msgs(old(msgs)@), message@),
{
    let ghost s0 = view_msgs(msgs@);
    let n = msgs.len();
    let mut i: usize = 0;
    loop
        invariant
            0 <= i <= n,
            n == msgs@.len(),
            msgs@ == old(msgs)@,
            s0 == view_msgs(msgs@),
            forall|k: int| 0 <= k < i ==> (#[trigger] s0[k]).id != message@.id,
        ensures
            msgs@ == old(msgs)@,
            0 <= i <= n,
            forall|k: int| 0 <= k < i ==> (#[trigger] s0[k]).id != message@.id,
            i < n ==> s0[i as int].id == message@.id,
        decreases n - i,
    {
        if i == n {
            break ;
        }
        if msgs[i].id == message.id {
            break ;
        }
        i += 1;
    }
    if i < n {
        proof {
            assert(has_id(s0, message@.id));
        }
        return ;
    }
    proof {
        if has_id(s0, message@.id) {
            let k = choose|k: int| 0 <= k < s0.len() && s0[k].id == message@.id;
            assert(s0[k].id != message@.id);
        }
    }
    let mut p: usize = 0;
    loop
        invariant
            0 <= p <= n,
            n == msgs@.len(),
            msgs@ == old(msgs)@,
            s0 == view_msgs(msgs@),
            forall|k: int| 0 <= k < p ==> !msg_lt(message@, #[trigger] s0[k]),
        ensures
            msgs@ == old(msgs)@,
            0 <= p <= n,
            forall|k: int| 0 <= k < p ==> !msg_lt(message@, #[trigger] s0[k]),
            p < n ==> msg_lt(message@, s0[p as int]),
        decreases n - p,
    {
        if p == n {
            break ;
        }
        if msg_before(&message, &msgs[p]) {
            break ;
        }
        p += 1;
    }
    let ghost mm = message@;
    msgs.insert(p, message);
    proof {
        lemma_sorted_insert_position(s0, mm, p as int);
        assert(view_msgs(msgs@) =~= s0.insert(p as int, mm));
    }
}

impl MessageStore {
    /// A fresh, empty store for the peer with the given identifier.
    pub fn new(local_peer: u64) -> (r: Self)
        ensures
            r@.rooms == Seq::<RoomModel>::empty(),
            r@.local_peer == local_peer,
            r@.local_counter == 0,
            r@.outbox == Seq::<MsgModel>::empty(),
            store_wf(r@),
    {
        let r = MessageStore {
            entries: Vec::new(),
            local_peer,
            local_counter: 0,
            outbox: Vec::new(),
        };
        proof {
            assert(r@.rooms =~= Seq::<RoomModel>::empty());
            assert(r@.outbox =~= Seq::<MsgModel>::empty());
        }
        r
    }

    /// The rooms that exist, in creation order.  Pure read.
    pub fn rooms(&self) -> (r: Vec<Room>)
        ensures
            r@.len() == self@.rooms.len(),
            forall|i: int|
                0 <= i < r@.len() ==> (#[trigger] r@[i]).id@ == self@.rooms[i].id && r@[i].visibility
                    == self@.rooms[i].visibility,
    {
        let mut out: Vec<Room> = Vec::new();
        let n = self.entries.len();
        let mut i: usize = 0;
        while i < n
            invariant
                0 <= i <= n,
                n == self.entries@.len(),
                out@.len() == i,
                forall|k: int|
                    0 <= k < i ==> (#[trigger] out@[k]).id@ == self@.rooms[k].id
                        && out@[k].visibility == self@.rooms[k].visibility,
            decreases n - i,
        {
            out.push(self.entries[i].room.clone());
            i += 1;
        }
        out
    }

    /// A snapshot of the ordered messages of one room; empty when the room
    /// does not exist.  Pure read: callers re-query for updates.
    pub fn messages_in(&self, room_id: &String) -> (r: Vec<Message>)
        ensures
            view_msgs(r@) == room_msgs(self@.rooms, room_id@),
    {
        let ghost roomsm = self@.rooms;
        let n = self.entries.len();
        let mut i: usize = 0;
        loop
            invariant
                0 <= i <= n,
                n == self.entries@.len(),
                roomsm == self@.rooms,
                forall|k: int| 0 <= k < i ==> (#[trigger] roomsm[k]).id != room_id@,
            ensures
                0 <= i <= n,
                forall|k: int| 0 <= k < i ==> (#[trigger] roomsm[k]).id != room_id@,
                i < n ==> roomsm[i as int].id == room_id@,
            decreases n - i,
        {
            if i == n {
                break ;
            }
            if self.entries[i].room.id == *room_id {
                break ;
            }
            i += 1;
        }
        if i < n {
            proof {
                lemma_room_msgs_found(roomsm, room_id@, i as int);
            }
            let e = &self.entries[i];
            let m = e.msgs.len();
            let mut out: Vec<Message> = Vec::new();
            let mut j: usize = 0;
            while j < m
                invariant
                    0 <= j <= m,
                    m == e.msgs@.len(),
                    out@.len() == j,
                    forall|k: int| 0 <= k < j ==> #[trigger] out@[k] == e.msgs@[k],
                decreases m - j,
            {
                out.push(e.msgs[j].clone());
                j += 1;
            }
            proof {
                assert(view_msgs(out@) =~= view_msgs(e.msgs@));
            }
            out
        } else {
            proof {
                lemma_room_msgs_absent(roomsm, room_id@);
                assert(view_msgs(Seq::<Message>::empty()) =~= Seq::<MsgModel>::empty());
            }
            let out: Vec<Message> = Vec::new();
            out
        }
    }

    /// Drains the messages queued for outbound replication, in the order
    /// they were appended.  The caller publishes them to the sync engine.
    pub fn take_outbound(&mut self) -> (r: Vec<Message>)
        ensures
            view_msgs(r@) == old(self)@.outbox,
            final(self)@.outbox == Seq::<MsgModel>::empty(),
            final(self)@.rooms == old(self)@.rooms,
            final(self)@.local_peer == old(self)@.local_peer,
            final(self)@.local_counter == old(self)@.local_counter,
    {
        let mut out: Vec<Message> = Vec::new();
        core::mem::swap(&mut out, &mut self.outbox);
        proof {
            assert(final(self)@.outbox =~= Seq::<MsgModel>::empty());
        }
        out
    }

    fn make_id(&self) -> (r: u128)
        ensures
            r == make_local_id(self@.local_peer, self@.local_counter),
    {
        let hi = self.local_peer as u128;
        let lo = self.local_counter as u128;
        proof {
            vstd::arithmetic::mul::lemma_mul_inequality(
                hi as int,
                0xFFFF_FFFF_FFFF_FFFFu64 as int,
                0x1_0000_0000_0000_0000u128 as int,
            );
        }
        hi * 0x1_0000_0000_0000_0000u128 + lo
    }

    fn next_logical_timestamp(&self, sender: &String) -> (r: u64)
        ensures
            r == next_lt(self@.rooms, sender@),
    {
        let ghost roomsm = self@.rooms;
        let n = self.entries.len();
        let mut acc: u64 = 0;
        let mut i: usize = 0;
        proof {
            assert(roomsm.skip(0) =~= roomsm);
        }
        loop
            invariant
                0 <= i <= n,
                n == self.entries@.len(),
                roomsm == self@.rooms,
                max64(acc, max_lt_rooms(roomsm.skip(i as int), sender@)) == max_lt_rooms(
                    roomsm,
                    sender@,
                ),
            ensures
                acc == max_lt_rooms(roomsm, sender@),
            decreases n - i,
        {
            if i == n {
                proof {
                    assert(roomsm.skip(n as int) =~= Seq::<RoomModel>::empty());
                }
                break ;
            }
            let ghost msgsm = roomsm[i as int].msgs;
            proof {
                assert(roomsm.skip(i as int)[0] == roomsm[i as int]);
                assert(roomsm.skip(i as int).drop_first() =~= roomsm.skip(i + 1));
                assert(msgsm.skip(0) =~= msgsm);
            }
            let e = &self.entries[i];
            let m = e.msgs.len();
            let mut j: usize = 0;
            while j < m
                invariant
                    0 <= j <= m,
                    m == e.msgs@.len(),
                    msgsm == view_msgs(e.msgs@),
                    max64(
                        max64(acc, max_lt_in(msgsm.skip(j as int), sender@)),
                        max_lt_rooms(roomsm.skip(i + 1), sender@),
                    ) == max_lt_rooms(roomsm, sender@),
                decreases m - j,
            {
                proof {
                    assert(msgsm.skip(j as int)[0] == msgsm[j as int]);
                    assert(msgsm.skip(j as int).drop_first() =~= msgsm.skip(j + 1));
                }
                let msg = &e.msgs[j];
                if msg.sender == *sender {
                    if msg.logical_timestamp > acc {
                        acc = msg.logical_timestamp;
                    }
                }
                j += 1;
            }
            proof {
                assert(msgsm.skip(m as int) =~= Seq::<MsgModel>::empty());
            }
            i += 1;
        }
        if acc < u64::MAX {
            acc + 1
        } else {
            acc
        }
    }

    fn insert_message(&mut self, message: Message)
        requires
            store_wf(old(self)@),
        ensures
            store_wf(final(self)@),
            final(self)@.rooms == store_insert(old(self)@.rooms, message@),
            final(self)@.local_peer == old(self)@.local_peer,
            final(self)@.local_counter == old(self)@.local_counter,
            final(self)@.outbox == old(self)@.outbox,
    {
        let ghost rooms0 = self@.rooms;
        let n = self.entries.len();
        let mut i: usize = 0;
        loop
            invariant
                0 <= i <= n,
                n == self.entries@.len(),
                self@ == old(self)@,
                rooms0 == self@.rooms,
                forall|k: int| 0 <= k < i ==> (#[trigger] rooms0[k]).id != message@.room,
            ensures
                self@ == old(self)@,
                0 <= i <= n,
                forall|k: int| 0 <= k < i ==> (#[trigger] rooms0[k]).id != message@.room,
                i < n ==> rooms0[i as int].id == message@.room,
            decreases n - i,
        {
            if i == n {
                break ;
            }
            if self.entries[i].room.id == message.room_id {
                break ;
            }
            i += 1;
        }
        if i < n {
            proof {
                lemma_store_insert_found(rooms0, message@, i as int);
                lemma_room_insert_wf(rooms0[i as int].msgs, message@);
            }
            let ghost mm = message@;
            let mut entry = self.entries.remove(i);
            insert_into_room(&mut entry.msgs, message);
            self.entries.insert(i, entry);
            proof {
                let updated = RoomModel {
                    id: rooms0[i as int].id,
                    visibility: rooms0[i as int].visibility,
                    msgs: room_insert(rooms0[i as int].msgs, mm),
                };
                assert(self@.rooms =~= rooms0.update(i as int, updated));
                let rs = self@.rooms;
                assert forall|a: int, b: int|
                    0 <= a < rs.len() && 0 <= b < rs[a].msgs.len() implies (
                #[trigger] rs[a].msgs[b]).room == rs[a].id by {
                    if a == i {
                        assert(rs[a].msgs.contains(rs[a].msgs[b]));
                        if !rooms0[a].msgs.contains(rs[a].msgs[b]) {
                            assert(rs[a].msgs[b] == mm);
                        } else {
                            let w = choose|w: int|
                                0 <= w < rooms0[a].msgs.len() && rooms0[a].msgs[w] == rs[a].msgs[b];
                            assert(rooms0[a].msgs[w].room == rooms0[a].id);
                        }
                    }
                }
            }
        } else {
            proof {
                lemma_store_insert_absent(rooms0, message@);
            }
            let ghost mm = message@;
            let rid = message.room_id.clone();
            let mut msgs: Vec<Message> = Vec::new();
            msgs.push(message);
            let entry = RoomEntry { room: Room { id: rid, visibility: Visibility::Public }, msgs };
            self.entries.push(entry);
            proof {
                let fresh = RoomModel { id: mm.room, visibility: Visibility::Public, msgs: seq![mm] };
                assert(self.entries@[n as int].model().msgs =~= seq![mm]);
                assert(self.entries@[n as int].model() == fresh);
                assert(self@.rooms =~= rooms0 + seq![fresh]);
                let rs = self@.rooms;
                assert(sorted(seq![mm]));
                assert(ids_unique(seq![mm]));
                assert forall|a: int, b: int|
                    0 <= a < rs.len() && 0 <= b < rs[a].msgs.len() implies (
                #[trigger] rs[a].msgs[b]).room == rs[a].id by {
                    if a == n {
                        assert(rooms0.len() == n);
                        assert(rs[a] == fresh);
                        assert(rs[a].msgs[b] == seq![mm][b]);
                    }
                }
            }
        }
    }

    /// Applies a remote update delivered by the sync engine for the given
    /// session.  Idempotent upsert: a message whose id is already present
    /// changes nothing; otherwise it is inserted at the position the message
    /// order dictates.  A delivery that fires when the session is not live
    /// is discarded.
    pub fn apply_remote(&mut self, session: &SessionManager, message: Message)
        requires
            store_wf(old(self)@),
        ensures
            store_wf(final(self)@),
            session@.status is Active ==> final(self)@.rooms == store_insert(
                old(self)@.rooms,
                message@,
            ) && final(self)@.local_peer == old(self)@.local_peer && final(self)@.local_counter
                == old(self)@.local_counter && final(self)@.outbox == old(self)@.outbox,
            !(session@.status is Active) ==> final(self)@ == old(self)@,
    {
        if !session.is_active() {
            return ;
        }
        self.insert_message(message);
    }

    /// Appends a message the local user sends: a fresh locally scoped id,
    /// the sender's next logical timestamp, the caller's clock reading; the
    /// message is filed at its ordered position and queued for outbound
    /// replication.  Fails with `SessionNotActive`, changing nothing, when
    /// no session is live.
    pub fn append_local(
        &mut self,
        session: &SessionManager,
        room_id: String,
        sender: String,
        body: String,
        wall_clock: u64,
    ) -> (r: Result<Message, StoreError>)
        requires
            store_wf(old(self)@),
        ensures
            store_wf(final(self)@),
            !(session@.status is Active) ==> final(self)@ == old(self)@ && (r matches Err(e) && e
                == StoreError::SessionNotActive),
            session@.status is Active ==> (r matches Ok(m) && m@.id == make_local_id(
                old(self)@.local_peer,
                old(self)@.local_counter,
            ) && m@.room == room_id@ && m@.sender == sender@ && m@.body == body@ && m@.wall_clock
                == wall_clock && m@.logical_timestamp == next_lt(old(self)@.rooms, sender@)
                && final(self)@.rooms == store_insert(old(self)@.rooms, m@) && final(self)@.outbox
                == old(self)@.outbox.push(m@) && final(self)@.local_counter == bump(
                old(self)@.local_counter,
            ) && final(self)@.local_peer == old(self)@.local_peer),
    {
        if !session.is_active() {
            return Err(StoreError::SessionNotActive);
        }
        let lt = self.next_logical_timestamp(&sender);
        let id = self.make_id();
        if self.local_counter < u64::MAX {
            self.local_counter = self.local_counter + 1;
        }
        let message = Message {
            id,
            room_id,
            sender,
            body,
            logical_timestamp: lt,
            wall_clock,
        };
        self.outbox.push(message.clone());
        proof {
            assert(self@.outbox =~= old(self)@.outbox.push(message@));
        }
        self.insert_message(message.clone());
        Ok(message)
    }
}

} // verus!
