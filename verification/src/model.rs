//! Mathematical model of the replicated message store: the deterministic
//! message order, the reconciliation rule for concurrent inserts, and the
//! laws (convergence, idempotence) that the rule provides.

use vstd::prelude::*;

verus! {

use vstd::utf8::char_u32_cast;

/// Abstract value of a chat message: identifiers and text as character
/// sequences, counters as integers.
pub ghost struct MsgModel {
    pub id: u128,
    pub room: Seq<char>,
    pub sender: Seq<char>,
    pub body: Seq<char>,
    pub logical_timestamp: u64,
    pub wall_clock: u64,
}

/// Strict lexicographic order on character sequences, by code point.
pub open spec fn chars_lt(a: Seq<char>, b: Seq<char>) -> bool
    decreases a.len(),
{
    if b.len() == 0 {
        false
    } else if a.len() == 0 {
        true
    } else if (a[0] as u32) < (b[0] as u32) {
        true
    } else if (b[0] as u32) < (a[0] as u32) {
        false
    } else {
        chars_lt(a.drop_first(), b.drop_first())
    }
}

pub proof fn lemma_chars_lt_irreflexive(a: Seq<char>)
    ensures
        !chars_lt(a, a),
    decreases a.len(),
{
    if a.len() > 0 {
        lemma_chars_lt_irreflexive(a.drop_first());
    }
}

pub proof fn lemma_chars_lt_connex(a: Seq<char>, b: Seq<char>)
    ensures
        chars_lt(a, b) || chars_lt(b, a) || a == b,
    decreases a.len(),
{
    if a.len() == 0 && b.len() == 0 {
        assert(a =~= b);
    } else if a.len() > 0 && b.len() > 0 {
        if !((a[0] as u32) < (b[0] as u32)) && !((b[0] as u32) < (a[0] as u32)) {
            char_u32_cast(a[0], a[0] as u32);
            char_u32_cast(b[0], b[0] as u32);
            assert(a[0] == b[0]);
            lemma_chars_lt_connex(a.drop_first(), b.drop_first());
            if a.drop_first() == b.drop_first() {
                assert(a =~= seq![a[0]] + a.drop_first());
                assert(b =~= seq![b[0]] + b.drop_first());
            }
        }
    }
}

pub proof fn lemma_chars_lt_transitive(a: Seq<char>, b: Seq<char>, c: Seq<char>)
    requires
        chars_lt(a, b),
        chars_lt(b, c),
    ensures
        chars_lt(a, c),
    decreases a.len(),
{
    if a.len() == 0 {
    } else {
        if !((a[0] as u32) < (b[0] as u32)) && !((b[0] as u32) < (a[0] as u32)) {
            if !((b[0] as u32) < (c[0] as u32)) && !((c[0] as u32) < (b[0] as u32)) {
                lemma_chars_lt_transitive(a.drop_first(), b.drop_first(), c.drop_first());
            }
        }
    }
}

/// The deterministic total order on messages: by logical timestamp, then
/// sender, then id.  Concurrent inserts from different peers resolve to the
/// same position under this order.
pub open spec fn msg_lt(a: MsgModel, b: MsgModel) -> bool {
    ||| a.logical_timestamp < b.logical_timestamp
    ||| (a.logical_timestamp == b.logical_timestamp && chars_lt(a.sender, b.sender))
    ||| (a.logical_timestamp == b.logical_timestamp && a.sender == b.sender && a.id < b.id)
}

pub proof fn lemma_msg_lt_irreflexive(a: MsgModel)
    ensures
        !msg_lt(a, a),
{
    lemma_chars_lt_irreflexive(a.sender);
}

/// Two messages with different ids are always ordered one way or the other.
pub proof fn lemma_msg_lt_connex(a: MsgModel, b: MsgModel)
    requires
        a.id != b.id,
    ensures
        msg_lt(a, b) || msg_lt(b, a),
{
    lemma_chars_lt_connex(a.sender, b.sender);
}

pub proof fn lemma_msg_lt_transitive(a: MsgModel, b: MsgModel, c: MsgModel)
    requires
        msg_lt(a, b),
        msg_lt(b, c),
    ensures
        msg_lt(a, c),
{
    if a.logical_timestamp == b.logical_timestamp && b.logical_timestamp == c.logical_timestamp {
        if chars_lt(a.sender, b.sender) && chars_lt(b.sender, c.sender) {
            lemma_chars_lt_transitive(a.sender, b.sender, c.sender);
        }
    }
}

/// A room sequence is sorted when every earlier message is strictly below
/// every later one in the message order.
pub open spec fn sorted(s: Seq<MsgModel>) -> bool {
    forall|i: int, j: int| 0 <= i < j < s.len() ==> msg_lt(s[i], s[j])
}

/// Whether some message in the sequence carries the given id.
pub open spec fn has_id(s: Seq<MsgModel>, id: u128) -> bool {
    exists|i: int| 0 <= i < s.len() && s[i].id == id
}

/// Insertion at the position the message order dictates.
pub open spec fn sorted_insert(s: Seq<MsgModel>, m: MsgModel) -> Seq<MsgModel>
    decreases s.len(),
{
    if s.len() == 0 {
        seq![m]
    } else if msg_lt(m, s[0]) {
        seq![m] + s
    } else {
        seq![s[0]] + sorted_insert(s.drop_first(), m)
    }
}

/// The reconciliation rule: an id already present makes the insert a no-op,
/// otherwise the message goes to its ordered position.
pub open spec fn room_insert(s: Seq<MsgModel>, m: MsgModel) -> Seq<MsgModel> {
    if has_id(s, m.id) {
        s
    } else {
        sorted_insert(s, m)
    }
}

pub proof fn lemma_sorted_insert(s: Seq<MsgModel>, m: MsgModel)
    requires
        sorted(s),
        !has_id(s, m.id),
    ensures
        sorted(sorted_insert(s, m)),
        sorted_insert(s, m).len() == s.len() + 1,
        forall|x: MsgModel|
            #![trigger sorted_insert(s, m).contains(x)]
            #![trigger s.contains(x)]
            sorted_insert(s, m).contains(x) <==> s.contains(x) || x == m,
    decreases s.len(),
{
    let res = sorted_insert(s, m);
    if s.len() == 0 {
        assert(res.contains(m)) by {
            assert(res[0] == m);
        }
    } else if msg_lt(m, s[0]) {
        assert forall|i: int, j: int| 0 <= i < j < res.len() implies msg_lt(res[i], res[j]) by {
            if i == 0 {
                if j == 1 {
                } else {
                    lemma_msg_lt_transitive(m, s[0], s[j - 1]);
                }
            }
        }
        assert forall|x: MsgModel| res.contains(x) implies s.contains(x) || x == m by {
            let i = choose|i: int| 0 <= i < res.len() && res[i] == x;
            if i > 0 {
                assert(s[i - 1] == x);
            }
        }
        assert forall|x: MsgModel| s.contains(x) || x == m implies res.contains(x) by {
            if s.contains(x) {
                let i = choose|i: int| 0 <= i < s.len() && s[i] == x;
                assert(res[i + 1] == x);
            } else {
                assert(res[0] == x);
            }
        }
    } else {
        let tail = s.drop_first();
        assert(!has_id(tail, m.id)) by {
            if has_id(tail, m.id) {
                let i = choose|i: int| 0 <= i < tail.len() && tail[i].id == m.id;
                assert(s[i + 1].id == m.id);
            }
        }
        assert(s[0].id != m.id) by {
            if s[0].id == m.id {
                assert(has_id(s, m.id));
            }
        }
        lemma_sorted_insert(tail, m);
        let rec = sorted_insert(tail, m);
        lemma_msg_lt_connex(s[0], m);
        assert(msg_lt(s[0], m));
        assert forall|x: MsgModel| rec.contains(x) implies msg_lt(s[0], x) by {
            if tail.contains(x) {
                let i = choose|i: int| 0 <= i < tail.len() && tail[i] == x;
                assert(s[i + 1] == x);
                assert(msg_lt(s[0], s[i + 1]));
            }
        }
        assert forall|i: int, j: int| 0 <= i < j < res.len() implies msg_lt(res[i], res[j]) by {
            if i == 0 {
                assert(rec.contains(rec[j - 1]));
                assert(res[j] == rec[j - 1]);
            } else {
                assert(res[i] == rec[i - 1] && res[j] == rec[j - 1]);
            }
        }
        assert forall|x: MsgModel| res.contains(x) implies s.contains(x) || x == m by {
            let i = choose|i: int| 0 <= i < res.len() && res[i] == x;
            if i == 0 {
                assert(s[0] == x);
            } else {
                assert(rec.contains(rec[i - 1]));
                if tail.contains(x) {
                    let k = choose|k: int| 0 <= k < tail.len() && tail[k] == x;
                    assert(s[k + 1] == x);
                }
            }
        }
        assert forall|x: MsgModel| s.contains(x) || x == m implies res.contains(x) by {
            if s.contains(x) {
                let i = choose|i: int| 0 <= i < s.len() && s[i] == x;
                if i == 0 {
                    assert(res[0] == x);
                } else {
                    assert(tail[i - 1] == x);
                    assert(tail.contains(x));
                    assert(rec.contains(x));
                    let k = choose|k: int| 0 <= k < rec.len() && rec[k] == x;
                    assert(res[k + 1] == x);
                }
            } else {
                assert(rec.contains(m));
                let k = choose|k: int| 0 <= k < rec.len() && rec[k] == m;
                assert(res[k + 1] == x);
            }
        }
    }
}

/// No two positions in the sequence carry the same message id.
pub open spec fn ids_unique(s: Seq<MsgModel>) -> bool {
    forall|i: int, j: int| 0 <= i < j < s.len() ==> s[i].id != s[j].id
}

/// One reconciliation step keeps the room sorted and its ids unique.
pub proof fn lemma_room_insert_wf(s: Seq<MsgModel>, m: MsgModel)
    requires
        sorted(s),
        ids_unique(s),
    ensures
        sorted(room_insert(s, m)),
        ids_unique(room_insert(s, m)),
        has_id(room_insert(s, m), m.id),
        forall|id: u128| has_id(s, id) ==> has_id(room_insert(s, m), id),
        forall|x: MsgModel|
            #[trigger] room_insert(s, m).contains(x) ==> s.contains(x) || x == m,
{
    let res = room_insert(s, m);
    if has_id(s, m.id) {
    } else {
        lemma_sorted_insert(s, m);
        assert(res.contains(m));
        let w = choose|w: int| 0 <= w < res.len() && res[w] == m;
        assert(has_id(res, m.id));
        assert forall|i: int, j: int| 0 <= i < j < res.len() implies res[i].id != res[j].id by {
            lemma_msg_lt_irreflexive(res[i]);
            assert(res[i] != res[j]);
            assert(res.contains(res[i]));
            assert(res.contains(res[j]));
            if s.contains(res[i]) && s.contains(res[j]) {
                let p = choose|p: int| 0 <= p < s.len() && s[p] == res[i];
                let q = choose|q: int| 0 <= q < s.len() && s[q] == res[j];
                assert(p != q);
            } else if s.contains(res[i]) && res[j] == m {
                let p = choose|p: int| 0 <= p < s.len() && s[p] == res[i];
                if res[i].id == m.id {
                    assert(has_id(s, m.id));
                }
            } else if s.contains(res[j]) && res[i] == m {
                let q = choose|q: int| 0 <= q < s.len() && s[q] == res[j];
                if res[j].id == m.id {
                    assert(has_id(s, m.id));
                }
            }
        }
        assert forall|id: u128| has_id(s, id) implies has_id(res, id) by {
            let p = choose|p: int| 0 <= p < s.len() && s[p].id == id;
            assert(s.contains(s[p]));
            assert(res.contains(s[p]));
            let q = choose|q: int| 0 <= q < res.len() && res[q] == s[p];
        }
    }
}

/// `sorted_insert` is insertion at the first position whose message the new
/// one precedes.
pub proof fn lemma_sorted_insert_position(s: Seq<MsgModel>, m: MsgModel, p: int)
    requires
        0 <= p <= s.len(),
        forall|k: int| 0 <= k < p ==> !msg_lt(m, #[trigger] s[k]),
        p < s.len() ==> msg_lt(m, s[p]),
    ensures
        sorted_insert(s, m) == s.insert(p, m),
    decreases s.len(),
{
    if s.len() == 0 {
        assert(sorted_insert(s, m) =~= s.insert(0, m));
    } else if p == 0 {
        assert(msg_lt(m, s[0]));
        assert(seq![m] + s =~= s.insert(0, m));
    } else {
        assert(!msg_lt(m, s[0]));
        let tail = s.drop_first();
        assert forall|k: int| 0 <= k < p - 1 implies !msg_lt(m, #[trigger] tail[k]) by {
            assert(tail[k] == s[k + 1]);
        }
        lemma_sorted_insert_position(tail, m, p - 1);
        assert(seq![s[0]] + tail.insert(p - 1, m) =~= s.insert(p, m));
    }
}

/// Ids determine messages: no two distinct messages in the sequence carry
/// the same id.  Peers rely on this of the messages they exchange; it is the
/// stated invariant that message ids are globally unique and immutable.
pub open spec fn id_coherent(u: Seq<MsgModel>) -> bool {
    forall|i: int, j: int| 0 <= i < u.len() && 0 <= j < u.len() && u[i].id == u[j].id ==> u[i] == u[j]
}

pub proof fn lemma_coherent_sub(part: Seq<MsgModel>, whole: Seq<MsgModel>)
    requires
        id_coherent(whole),
        forall|x: MsgModel| #[trigger] part.contains(x) ==> whole.contains(x),
    ensures
        id_coherent(part),
{
    assert forall|i: int, j: int|
        0 <= i < part.len() && 0 <= j < part.len() && part[i].id == part[j].id implies part[i]
        == part[j] by {
        assert(part.contains(part[i]));
        assert(part.contains(part[j]));
        let a = choose|a: int| 0 <= a < whole.len() && whole[a] == part[i];
        let b = choose|b: int| 0 <= b < whole.len() && whole[b] == part[j];
        assert(whole[a].id == whole[b].id);
    }
}

pub proof fn lemma_concat_contains(a: Seq<MsgModel>, b: Seq<MsgModel>, x: MsgModel)
    ensures
        (a + b).contains(x) <==> a.contains(x) || b.contains(x),
{
    if (a + b).contains(x) {
        let i = choose|i: int| 0 <= i < (a + b).len() && (a + b)[i] == x;
        if i < a.len() {
            assert(a[i] == x);
        } else {
            assert(b[i - a.len()] == x);
        }
    }
    if a.contains(x) {
        let i = choose|i: int| 0 <= i < a.len() && a[i] == x;
        assert((a + b)[i] == x);
    }
    if b.contains(x) {
        let i = choose|i: int| 0 <= i < b.len() && b[i] == x;
        assert((a + b)[a.len() + i] == x);
    }
}

/// One reconciliation step adds exactly the new message's value to the
/// contents, provided ids determine messages.
pub proof fn lemma_room_insert(s: Seq<MsgModel>, m: MsgModel)
    requires
        sorted(s),
        id_coherent(s + seq![m]),
    ensures
        sorted(room_insert(s, m)),
        forall|x: MsgModel|
            #![trigger room_insert(s, m).contains(x)]
            #![trigger s.contains(x)]
            room_insert(s, m).contains(x) <==> s.contains(x) || x == m,
{
    let u = s + seq![m];
    if has_id(s, m.id) {
        let i = choose|i: int| 0 <= i < s.len() && s[i].id == m.id;
        assert(u[i] == s[i]);
        assert(u[s.len() as int] == m);
        assert(s[i] == m);
        assert(s.contains(m));
    } else {
        lemma_sorted_insert(s, m);
    }
}

/// Applying a whole sequence of remote messages, in delivery order.
pub open spec fn room_apply_all(s: Seq<MsgModel>, ms: Seq<MsgModel>) -> Seq<MsgModel>
    decreases ms.len(),
{
    if ms.len() == 0 {
        s
    } else {
        room_apply_all(room_insert(s, ms[0]), ms.drop_first())
    }
}

pub proof fn lemma_apply_all(s: Seq<MsgModel>, ms: Seq<MsgModel>)
    requires
        sorted(s),
        id_coherent(s + ms),
    ensures
        sorted(room_apply_all(s, ms)),
        forall|x: MsgModel|
            #![trigger room_apply_all(s, ms).contains(x)]
            #![trigger s.contains(x)]
            room_apply_all(s, ms).contains(x) <==> s.contains(x) || ms.contains(x),
    decreases ms.len(),
{
    if ms.len() == 0 {
        assert forall|x: MsgModel| !ms.contains(x) by {}
    } else {
        let m = ms[0];
        let rest = ms.drop_first();
        assert(id_coherent(s + seq![m])) by {
            assert forall|x: MsgModel| #[trigger] (s + seq![m]).contains(x) implies (s
                + ms).contains(x) by {
                lemma_concat_contains(s, seq![m], x);
                lemma_concat_contains(s, ms, x);
                if seq![m].contains(x) {
                    assert(x == m);
                    assert(ms.contains(m));
                }
            }
            lemma_coherent_sub(s + seq![m], s + ms);
        }
        lemma_room_insert(s, m);
        let s1 = room_insert(s, m);
        assert(id_coherent(s1 + rest)) by {
            assert forall|x: MsgModel| #[trigger] (s1 + rest).contains(x) implies (s
                + ms).contains(x) by {
                lemma_concat_contains(s1, rest, x);
                lemma_concat_contains(s, ms, x);
                if s1.contains(x) {
                    if !s.contains(x) {
                        assert(x == m);
                        assert(ms.contains(m));
                    }
                } else {
                    let i = choose|i: int| 0 <= i < rest.len() && rest[i] == x;
                    assert(ms[i + 1] == x);
                }
            }
            lemma_coherent_sub(s1 + rest, s + ms);
        }
        lemma_apply_all(s1, rest);
        assert forall|x: MsgModel| #[trigger] room_apply_all(s, ms).contains(x) implies s.contains(
            x,
        ) || ms.contains(x) by {
            if !s.contains(x) {
                if s1.contains(x) {
                    assert(ms.contains(m));
                } else {
                    let i = choose|i: int| 0 <= i < rest.len() && rest[i] == x;
                    assert(ms[i + 1] == x);
                }
            }
        }
        assert forall|x: MsgModel| s.contains(x) || ms.contains(x) implies #[trigger] room_apply_all(
            s,
            ms,
        ).contains(x) by {
            if ms.contains(x) && x != m {
                let i = choose|i: int| 0 <= i < ms.len() && ms[i] == x;
                assert(i > 0);
                assert(rest[i - 1] == x);
                assert(rest.contains(x));
            }
        }
    }
}

/// Two sorted sequences with the same contents are the same sequence: the
/// order is a function of the contents alone.
pub proof fn lemma_sorted_same_contents_equal(s1: Seq<MsgModel>, s2: Seq<MsgModel>)
    requires
        sorted(s1),
        sorted(s2),
        forall|x: MsgModel| #![trigger s1.contains(x)] #![trigger s2.contains(x)]
            s1.contains(x) <==> s2.contains(x),
    ensures
        s1 == s2,
    decreases s1.len(),
{
    if s1.len() == 0 {
        if s2.len() > 0 {
            assert(s2.contains(s2[0]));
        }
        assert(s1 =~= s2);
    } else {
        assert(s1.contains(s1[0]));
        assert(s2.len() > 0);
        assert(s2.contains(s2[0]));
        assert(s1.contains(s2[0]));
        assert(s2.contains(s1[0]));
        assert(s1[0] == s2[0]) by {
            let i = choose|i: int| 0 <= i < s2.len() && s2[i] == s1[0];
            let j = choose|j: int| 0 <= j < s1.len() && s1[j] == s2[0];
            if i > 0 && j > 0 {
                lemma_msg_lt_transitive(s1[0], s1[j], s1[0]);
                lemma_msg_lt_irreflexive(s1[0]);
            } else if i > 0 {
                assert(msg_lt(s2[0], s2[i]));
                lemma_msg_lt_irreflexive(s2[0]);
            } else if j > 0 {
                assert(msg_lt(s1[0], s1[j]));
                lemma_msg_lt_irreflexive(s1[0]);
            }
        }
        let t1 = s1.drop_first();
        let t2 = s2.drop_first();
        assert forall|x: MsgModel| #![trigger t1.contains(x)] #![trigger t2.contains(x)]
            t1.contains(x) <==> t2.contains(x) by {
            lemma_head_not_in_tail(s1);
            lemma_head_not_in_tail(s2);
            lemma_tail_contains(s1, x);
            lemma_tail_contains(s2, x);
        }
        lemma_sorted_same_contents_equal(t1, t2);
        assert(s1 =~= seq![s1[0]] + t1);
        assert(s2 =~= seq![s2[0]] + t2);
    }
}

proof fn lemma_head_not_in_tail(s: Seq<MsgModel>)
    requires
        sorted(s),
        s.len() > 0,
    ensures
        !s.drop_first().contains(s[0]),
{
    if s.drop_first().contains(s[0]) {
        let i = choose|i: int| 0 <= i < s.drop_first().len() && s.drop_first()[i] == s[0];
        assert(s[i + 1] == s[0]);
        assert(msg_lt(s[0], s[i + 1]));
        lemma_msg_lt_irreflexive(s[0]);
    }
}

proof fn lemma_tail_contains(s: Seq<MsgModel>, x: MsgModel)
    requires
        s.len() > 0,
    ensures
        s.contains(x) && x != s[0] ==> s.drop_first().contains(x),
        s.drop_first().contains(x) ==> s.contains(x),
{
    let t = s.drop_first();
    if t.contains(x) {
        let i = choose|i: int| 0 <= i < t.len() && t[i] == x;
        assert(s[i + 1] == x);
    }
    if s.contains(x) && x != s[0] {
        let i = choose|i: int| 0 <= i < s.len() && s[i] == x;
        assert(t[i - 1] == x);
    }
}

/// Convergence: two peers that apply the same set of messages to the same
/// starting room, each in its own delivery order, end with identical room
/// sequences.
pub proof fn lemma_convergence(s0: Seq<MsgModel>, ms1: Seq<MsgModel>, ms2: Seq<MsgModel>)
    requires
        sorted(s0),
        id_coherent(s0 + ms1),
        forall|x: MsgModel| #![trigger ms1.contains(x)] #![trigger ms2.contains(x)]
            ms1.contains(x) <==> ms2.contains(x),
    ensures
        room_apply_all(s0, ms1) == room_apply_all(s0, ms2),
{
    assert(id_coherent(s0 + ms2)) by {
        assert forall|x: MsgModel| #[trigger] (s0 + ms2).contains(x) implies (s0
            + ms1).contains(x) by {
            lemma_concat_contains(s0, ms2, x);
            lemma_concat_contains(s0, ms1, x);
        }
        lemma_coherent_sub(s0 + ms2, s0 + ms1);
    }
    lemma_apply_all(s0, ms1);
    lemma_apply_all(s0, ms2);
    lemma_sorted_same_contents_equal(room_apply_all(s0, ms1), room_apply_all(s0, ms2));
}

/// Idempotence: applying the same message twice leaves the room as the first
/// application left it.
pub proof fn lemma_idempotent(s: Seq<MsgModel>, m: MsgModel)
    requires
        sorted(s),
    ensures
        room_insert(room_insert(s, m), m) == room_insert(s, m),
{
    if !has_id(s, m.id) {
        lemma_sorted_insert(s, m);
        let r = sorted_insert(s, m);
        assert(r.contains(m));
        let i = choose|i: int| 0 <= i < r.len() && r[i] == m;
        assert(has_id(r, m.id));
    }
}

} // verus!
