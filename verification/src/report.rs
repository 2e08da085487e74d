//! Encoders for the session snapshots handed to the host: players, their
//! synchronized objects, achievements, highscores and administrator flags,
//! each as a colon-delimited record with base64-escaped free text.
//!
//! The session data itself comes from the network client; the library
//! models each snapshot as plain values and pins down the exact record text
//! the host receives. A highscore's score and anything else the client
//! reports as a floating-point number is carried as its decimal text.

use vstd::prelude::*;

use crate::encoding::{b64_encode, spec_b64};
use crate::numtext::{int_text, nat_text, u64_to_string, i64_to_string, valid_float_text};
use crate::codec::{encode_vari, lemma_encode_pairs_snoc};
use crate::value::{
    encode_pairs,
    lemma_pairs_wf,
    lemma_views_of_pairs,
    pairs_wf,
    vari_wf,
    view_of,
    views_of_pairs,
    Value,
};
use vstd::utf8::encode_utf8;

verus! {

/// What a player may do as an administrator.
pub struct Administrator {
    pub can_ban: bool,
    pub can_unban: bool,
    pub can_kick: bool,
}

/// An achievement: its texts, and when it was reached, if ever.
pub struct Achievement {
    pub name: String,
    pub description: String,
    pub unlocked: Option<u64>,
}

/// A highscore table: each entry a player and a score, the score carried
/// as its decimal text.
pub struct Highscore {
    pub name: String,
    pub scores: Vec<(u64, String)>,
}

/// One synchronized object of a player.
pub struct SyncState {
    pub kind: i16,
    pub sync_type: u8,
    pub event: u8,
    pub is_ending: bool,
    pub variables: Vec<(String, Value)>,
}

/// Another player, as the session reports them.
pub struct Player {
    pub name: String,
    pub room: String,
    pub syncs: Vec<Option<SyncState>>,
    pub variables: Vec<(String, Value)>,
}

/// One step of walking every player's synchronized objects.
pub struct SyncIter {
    pub player_id: u64,
    pub player_name: String,
    pub slot: usize,
    pub event: u8,
    pub kind: i16,
    pub variables: Vec<(String, Value)>,
}

/// The native boolean formatter's text.
pub open spec fn bool_text(b: bool) -> Seq<char> {
    if b {
        seq!['t', 'r', 'u', 'e']
    } else {
        seq!['f', 'a', 'l', 's', 'e']
    }
}

/// The record of administrator flags: the three flags, colon-separated.
pub open spec fn spec_encode_administrator(a: Administrator) -> Seq<char> {
    bool_text(a.can_ban) + seq![':'] + bool_text(a.can_unban) + seq![':'] + bool_text(a.can_kick)
}

/// Encodes administrator flags.
pub fn encode_administrator(a: &Administrator) -> (r: String)
    ensures
        r@ == spec_encode_administrator(*a),
{
    proof {
        reveal_strlit("true");
        reveal_strlit("false");
        reveal_strlit(":");
    }
    let mut s = if a.can_ban {
        "true".to_owned()
    } else {
        "false".to_owned()
    };
    s.append(":");
    s.append(if a.can_unban {
        "true"
    } else {
        "false"
    });
    s.append(":");
    s.append(if a.can_kick {
        "true"
    } else {
        "false"
    });
    proof {
        assert(s@ =~= spec_encode_administrator(*a));
    }
    s
}

/// The record of an achievement lookup: the texts base64-escaped and the
/// unlock time, or a bare `!` when there is no such achievement; a missing
/// unlock time is `!` as well.
pub open spec fn spec_encode_achievement(a: Option<Achievement>) -> Seq<char> {
    match a {
        Some(achi) => spec_b64(encode_utf8(achi.name@)) + seq![':'] + spec_b64(
            encode_utf8(achi.description@),
        ) + seq![':'] + (match achi.unlocked {
            Some(t) => nat_text(t as nat),
            None => seq!['!'],
        }),
        None => seq!['!'],
    }
}

/// Encodes an achievement lookup.
pub fn encode_achievement(a: &Option<Achievement>) -> (r: String)
    ensures
        r@ == spec_encode_achievement(*a),
{
    proof {
        reveal_strlit(":");
        reveal_strlit("!");
    }
    match a {
        Some(achi) => {
            let mut s = b64_encode(achi.name.as_str().as_bytes());
            s.append(":");
            let d = b64_encode(achi.description.as_str().as_bytes());
            s.append(d.as_str());
            s.append(":");
            match achi.unlocked {
                Some(t) => {
                    let ts = u64_to_string(t);
                    s.append(ts.as_str());
                },
                None => {
                    s.append("!");
                },
            }
            proof {
                assert(s@ =~= spec_encode_achievement(*a));
            }
            s
        },
        None => {
            let r = "!".to_owned();
            proof {
                assert(r@ =~= spec_encode_achievement(*a));
            }
            r
        },
    }
}

/// The tail of a highscore record: each entry's player and score text.
pub open spec fn scores_text(scores: Seq<(u64, String)>) -> Seq<char>
    decreases scores,
{
    if scores.len() == 0 {
        Seq::<char>::empty()
    } else {
        seq![':'] + nat_text(scores.first().0 as nat) + seq![':'] + scores.first().1@
            + scores_text(scores.drop_first())
    }
}

/// Extending the entries appends one player and score.
proof fn lemma_scores_snoc(scores: Seq<(u64, String)>, j: int)
    requires
        0 <= j < scores.len(),
    ensures
        scores_text(scores.take(j + 1)) == scores_text(scores.take(j)) + seq![':'] + nat_text(
            scores[j].0 as nat,
        ) + seq![':'] + scores[j].1@,
    decreases j,
{
    if j == 0 {
        assert(scores.take(0) =~= Seq::<(u64, String)>::empty());
        assert(scores.take(1).first() == scores[0]);
        assert(scores.take(1).drop_first() =~= Seq::<(u64, String)>::empty());
        assert(scores_text(scores.take(1)) =~= scores_text(scores.take(0)) + seq![':'] + nat_text(
            scores[0].0 as nat,
        ) + seq![':'] + scores[0].1@);
    } else {
        lemma_scores_snoc(scores.drop_first(), j - 1);
        assert(scores.take(j + 1).first() == scores[0]);
        assert(scores.take(j).first() == scores[0]);
        assert(scores.take(j + 1).drop_first() =~= scores.drop_first().take(j));
        assert(scores.take(j).drop_first() =~= scores.drop_first().take(j - 1));
        assert(scores.drop_first()[j - 1] == scores[j]);
        assert(scores_text(scores.take(j + 1)) =~= scores_text(scores.take(j)) + seq![':']
            + nat_text(scores[j].0 as nat) + seq![':'] + scores[j].1@);
    }
}

/// The record of a highscore lookup: the table name base64-escaped, the
/// entry count, then each entry; a bare `!` when there is no such table.
pub open spec fn spec_encode_highscore(h: Option<Highscore>) -> Seq<char> {
    match h {
        Some(hs) => spec_b64(encode_utf8(hs.name@)) + seq![':'] + nat_text(hs.scores@.len())
            + scores_text(hs.scores@),
        None => seq!['!'],
    }
}

/// Encodes a highscore lookup.
pub fn encode_highscore(h: &Option<Highscore>) -> (r: String)
    ensures
        r@ == spec_encode_highscore(*h),
{
    proof {
        reveal_strlit(":");
        reveal_strlit("!");
    }
    match h {
        Some(hs) => {
            let ghost entries = hs.scores@;
            let mut s = b64_encode(hs.name.as_str().as_bytes());
            s.append(":");
            let count = u64_to_string(hs.scores.len() as u64);
            s.append(count.as_str());
            proof {
                assert(scores_text(entries.take(0)) =~= Seq::<char>::empty());
                assert(s@ =~= spec_b64(encode_utf8(hs.name@)) + seq![':'] + nat_text(
                    entries.len(),
                ) + scores_text(entries.take(0)));
            }
            let mut j: usize = 0;
            while j < hs.scores.len()
                invariant
                    j <= entries.len(),
                    entries == hs.scores@,
                    s@ == spec_b64(encode_utf8(hs.name@)) + seq![':'] + nat_text(entries.len())
                        + scores_text(entries.take(j as int)),
                decreases entries.len() - j,
            {
                proof {
                    reveal_strlit(":");
                }
                s.append(":");
                let pid = u64_to_string(hs.scores[j].0);
                s.append(pid.as_str());
                s.append(":");
                s.append(hs.scores[j].1.as_str());
                proof {
                    lemma_scores_snoc(entries, j as int);
                    assert(s@ =~= spec_b64(encode_utf8(hs.name@)) + seq![':'] + nat_text(
                        entries.len(),
                    ) + scores_text(entries.take(j + 1)));
                }
                j = j + 1;
            }
            proof {
                assert(entries.take(entries.len() as int) =~= entries);
            }
            s
        },
        None => {
            let r = "!".to_owned();
            proof {
                assert(r@ =~= spec_encode_highscore(*h));
            }
            r
        },
    }
}


/// Appends a variables tail: for each variable a base64 name field and a
/// base64 record field.
fn append_vars(s: &mut String, vars: &Vec<(String, Value)>)
    requires
        pairs_wf(views_of_pairs(vars@)),
    ensures
        final(s)@ == old(s)@ + encode_pairs(views_of_pairs(vars@)),
{
    let ghost ws = views_of_pairs(vars@);
    proof {
        reveal_strlit(":");
        lemma_views_of_pairs(vars@);
        lemma_pairs_wf(ws);
        assert(encode_pairs(ws.take(0)) =~= Seq::<char>::empty());
        assert(s@ =~= old(s)@ + encode_pairs(ws.take(0)));
    }
    let mut j: usize = 0;
    while j < vars.len()
        invariant
            j <= vars@.len(),
            ws == views_of_pairs(vars@),
            ws.len() == vars@.len(),
            forall|i: int| 0 <= i < vars@.len() ==> #[trigger] ws[i] == ((
            vars@[i].0@,
            view_of(vars@[i].1),
            )),
            forall|i: int| 0 <= i < ws.len() ==> vari_wf((#[trigger] ws[i]).1),
            s@ == old(s)@ + encode_pairs(ws.take(j as int)),
        decreases vars@.len() - j,
    {
        proof {
            reveal_strlit(":");
            assert(vari_wf(ws[j as int].1));
        }
        s.append(":");
        let name_field = b64_encode(vars[j].0.as_str().as_bytes());
        s.append(name_field.as_str());
        s.append(":");
        let rec = encode_vari(&vars[j].1);
        let f = b64_encode(rec.as_str().as_bytes());
        s.append(f.as_str());
        proof {
            lemma_encode_pairs_snoc(ws, j as int);
            assert(ws[j as int].0 == vars@[j as int].0@);
            assert(ws[j as int].1 == view_of(vars@[j as int].1));
            assert(s@ =~= old(s)@ + encode_pairs(ws.take(j + 1)));
        }
        j = j + 1;
    }
    proof {
        assert(ws.take(ws.len() as int) =~= ws);
    }
}

/// Whether a synchronized object's variables can be encoded.
pub open spec fn sync_wf(sync: Option<SyncState>) -> bool {
    match sync {
        None => true,
        Some(st) => pairs_wf(views_of_pairs(st.variables@)),
    }
}

/// The record of one synchronized object at a slot: the slot, the object's
/// numbers, its variable count and its variables; an empty slot is the
/// slot and `!`.
#[verifier::opaque]
pub open spec fn spec_encode_sync(index: int, sync: Option<SyncState>) -> Seq<char> {
    match sync {
        None => nat_text(index as nat) + seq![':', '!'],
        Some(st) => nat_text(index as nat) + seq![':'] + int_text(st.kind as int) + seq![':']
            + nat_text(st.sync_type as nat) + seq![':'] + nat_text(st.event as nat) + seq![':'] + (
        if st.is_ending {
            seq!['1']
        } else {
            seq!['0']
        }) + seq![':'] + nat_text(st.variables@.len()) + encode_pairs(
            views_of_pairs(st.variables@),
        ),
    }
}

/// Encodes one synchronized object at a slot.
pub fn encode_sync(index: usize, sync: &Option<SyncState>) -> (r: String)
    requires
        sync_wf(*sync),
    ensures
        r@ == spec_encode_sync(index as int, *sync),
{
    proof {
        reveal(spec_encode_sync);
        reveal_strlit(":");
        reveal_strlit(":!");
        reveal_strlit("1");
        reveal_strlit("0");
    }
    let mut s = u64_to_string(index as u64);
    match sync {
        None => {
            s.append(":!");
            proof {
                assert(s@ =~= spec_encode_sync(index as int, *sync));
            }
            s
        },
        Some(st) => {
            s.append(":");
            let kind = i64_to_string(st.kind as i64);
            s.append(kind.as_str());
            s.append(":");
            let ty = u64_to_string(st.sync_type as u64);
            s.append(ty.as_str());
            s.append(":");
            let ev = u64_to_string(st.event as u64);
            s.append(ev.as_str());
            s.append(":");
            s.append(if st.is_ending {
                "1"
            } else {
                "0"
            });
            s.append(":");
            let count = u64_to_string(st.variables.len() as u64);
            s.append(count.as_str());
            append_vars(&mut s, &st.variables);
            proof {
                assert(s@ =~= spec_encode_sync(index as int, *sync));
            }
            s
        },
    }
}

/// The base64 field carrying one slot's object record.
#[verifier::opaque]
pub open spec fn sync_field(index: int, sync: Option<SyncState>) -> Seq<char> {
    spec_b64(encode_utf8(spec_encode_sync(index, sync)))
}

/// The tail of a player record: each slot's object record, base64-escaped,
/// numbered from `index` on.
pub open spec fn syncs_text(syncs: Seq<Option<SyncState>>, index: int) -> Seq<char>
    decreases syncs,
{
    if syncs.len() == 0 {
        Seq::<char>::empty()
    } else {
        seq![':'] + sync_field(index, syncs.first()) + syncs_text(syncs.drop_first(), index + 1)
    }
}

/// Extending the slots appends one base64-escaped object record.
#[verifier::rlimit(100)]
proof fn lemma_syncs_snoc(syncs: Seq<Option<SyncState>>, index: int, j: int)
    requires
        0 <= j < syncs.len(),
    ensures
        syncs_text(syncs.take(j + 1), index) == syncs_text(syncs.take(j), index) + seq![':']
            + sync_field(index + j, syncs[j]),
    decreases j,
{
    if j == 0 {
        assert(syncs.take(0) =~= Seq::<Option<SyncState>>::empty());
        assert(syncs.take(1).first() == syncs[0]);
        assert(syncs.take(1).drop_first() =~= Seq::<Option<SyncState>>::empty());
        assert(syncs_text(Seq::<Option<SyncState>>::empty(), index + 1) =~= Seq::<char>::empty());
        assert(syncs_text(Seq::<Option<SyncState>>::empty(), index) =~= Seq::<char>::empty());
        assert(syncs_text(syncs.take(1), index) =~= syncs_text(syncs.take(0), index) + seq![':']
            + sync_field(index, syncs[0]));
    } else {
        lemma_syncs_snoc(syncs.drop_first(), index + 1, j - 1);
        assert(syncs.take(j + 1).first() == syncs[0]);
        assert(syncs.take(j).first() == syncs[0]);
        assert(syncs.take(j + 1).drop_first() =~= syncs.drop_first().take(j));
        assert(syncs.take(j).drop_first() =~= syncs.drop_first().take(j - 1));
        assert(syncs.drop_first()[j - 1] == syncs[j]);
        assert(syncs_text(syncs.take(j + 1), index) =~= syncs_text(syncs.take(j), index)
            + seq![':'] + sync_field(index + j, syncs[j]));
    }
}

/// Whether a player's snapshot can be encoded.
pub open spec fn player_wf(p: Player) -> bool {
    &&& forall|i: int| 0 <= i < p.syncs@.len() ==> sync_wf(#[trigger] p.syncs@[i])
    &&& pairs_wf(views_of_pairs(p.variables@))
}

/// The record of another player: their number, their texts base64-escaped,
/// the object and variable counts, then each slot's object record and each
/// variable.
pub open spec fn spec_encode_player(pid: u64, p: Player) -> Seq<char> {
    nat_text(pid as nat) + seq![':'] + spec_b64(encode_utf8(p.name@)) + seq![':'] + spec_b64(
        encode_utf8(p.room@),
    ) + seq![':'] + nat_text(p.syncs@.len()) + seq![':'] + nat_text(p.variables@.len())
        + syncs_text(p.syncs@, 0) + encode_pairs(views_of_pairs(p.variables@))
}

/// Encodes another player's snapshot.
pub fn encode_player(pid: u64, p: &Player) -> (r: String)
    requires
        player_wf(*p),
    ensures
        r@ == spec_encode_player(pid, *p),
{
    proof {
        reveal_strlit(":");
    }
    let ghost slots = p.syncs@;
    let mut s = u64_to_string(pid);
    s.append(":");
    let name = b64_encode(p.name.as_str().as_bytes());
    s.append(name.as_str());
    s.append(":");
    let room = b64_encode(p.room.as_str().as_bytes());
    s.append(room.as_str());
    s.append(":");
    let sc = u64_to_string(p.syncs.len() as u64);
    s.append(sc.as_str());
    s.append(":");
    let vc = u64_to_string(p.variables.len() as u64);
    s.append(vc.as_str());
    let ghost head = nat_text(pid as nat) + seq![':'] + spec_b64(encode_utf8(p.name@)) + seq![':']
        + spec_b64(encode_utf8(p.room@)) + seq![':'] + nat_text(p.syncs@.len()) + seq![':']
        + nat_text(p.variables@.len());
    proof {
        assert(syncs_text(slots.take(0), 0) =~= Seq::<char>::empty());
        assert(s@ =~= head + syncs_text(slots.take(0), 0));
    }
    let mut j: usize = 0;
    while j < p.syncs.len()
        invariant
            j <= slots.len(),
            slots == p.syncs@,
            forall|i: int| 0 <= i < slots.len() ==> sync_wf(#[trigger] slots[i]),
            s@ == head + syncs_text(slots.take(j as int), 0),
        decreases slots.len() - j,
    {
        proof {
            reveal_strlit(":");
            assert(sync_wf(slots[j as int]));
        }
        s.append(":");
        let rec = encode_sync(j, &p.syncs[j]);
        let f = b64_encode(rec.as_str().as_bytes());
        s.append(f.as_str());
        proof {
            reveal(sync_field);
            assert(f@ == sync_field(j as int, slots[j as int]));
            lemma_syncs_snoc(slots, 0, j as int);
            assert(s@ =~= head + syncs_text(slots.take(j + 1), 0));
        }
        j = j + 1;
    }
    proof {
        assert(slots.take(slots.len() as int) =~= slots);
    }
    append_vars(&mut s, &p.variables);
    proof {
        assert(s@ =~= spec_encode_player(pid, *p));
    }
    s
}

/// The record of one iteration step over everyone's synchronized objects.
pub open spec fn spec_encode_synciter(si: SyncIter) -> Seq<char> {
    nat_text(si.player_id as nat) + seq![':'] + spec_b64(encode_utf8(si.player_name@)) + seq![':']
        + nat_text(si.slot as nat) + seq![':'] + nat_text(si.event as nat) + seq![':'] + int_text(
        si.kind as int,
    ) + seq![':'] + nat_text(si.variables@.len()) + encode_pairs(views_of_pairs(si.variables@))
}

/// Encodes one iteration step over everyone's synchronized objects.
pub fn encode_synciter(si: &SyncIter) -> (r: String)
    requires
        pairs_wf(views_of_pairs(si.variables@)),
    ensures
        r@ == spec_encode_synciter(*si),
{
    proof {
        reveal_strlit(":");
    }
    let mut s = u64_to_string(si.player_id);
    s.append(":");
    let name = b64_encode(si.player_name.as_str().as_bytes());
    s.append(name.as_str());
    s.append(":");
    let slot = u64_to_string(si.slot as u64);
    s.append(slot.as_str());
    s.append(":");
    let ev = u64_to_string(si.event as u64);
    s.append(ev.as_str());
    s.append(":");
    let kind = i64_to_string(si.kind as i64);
    s.append(kind.as_str());
    s.append(":");
    let vc = u64_to_string(si.variables.len() as u64);
    s.append(vc.as_str());
    append_vars(&mut s, &si.variables);
    proof {
        assert(s@ =~= spec_encode_synciter(*si));
    }
    s
}


/// The tail of a player list: each player number, colon-prefixed.
pub open spec fn ids_text(ids: Seq<u64>) -> Seq<char>
    decreases ids,
{
    if ids.len() == 0 {
        Seq::<char>::empty()
    } else {
        seq![':'] + nat_text(ids.first() as nat) + ids_text(ids.drop_first())
    }
}

/// Extending the players appends one number.
proof fn lemma_ids_snoc(ids: Seq<u64>, j: int)
    requires
        0 <= j < ids.len(),
    ensures
        ids_text(ids.take(j + 1)) == ids_text(ids.take(j)) + seq![':'] + nat_text(ids[j] as nat),
    decreases j,
{
    if j == 0 {
        assert(ids.take(0) =~= Seq::<u64>::empty());
        assert(ids.take(1).first() == ids[0]);
        assert(ids.take(1).drop_first() =~= Seq::<u64>::empty());
        assert(ids_text(Seq::<u64>::empty()) =~= Seq::<char>::empty());
        assert(ids_text(ids.take(1)) =~= ids_text(ids.take(0)) + seq![':'] + nat_text(
            ids[0] as nat,
        ));
    } else {
        lemma_ids_snoc(ids.drop_first(), j - 1);
        assert(ids.take(j + 1).first() == ids[0]);
        assert(ids.take(j).first() == ids[0]);
        assert(ids.take(j + 1).drop_first() =~= ids.drop_first().take(j));
        assert(ids.take(j).drop_first() =~= ids.drop_first().take(j - 1));
        assert(ids.drop_first()[j - 1] == ids[j]);
        assert(ids_text(ids.take(j + 1)) =~= ids_text(ids.take(j)) + seq![':'] + nat_text(
            ids[j] as nat,
        ));
    }
}

/// Encodes a list of player numbers, as the friends queries hand it to the
/// host: the count, then each number.
pub fn encode_id_list(ids: &Vec<u64>) -> (r: String)
    ensures
        r@ == nat_text(ids@.len()) + ids_text(ids@),
{
    proof {
        reveal_strlit(":");
    }
    let mut s = u64_to_string(ids.len() as u64);
    proof {
        assert(ids_text(ids@.take(0)) =~= Seq::<char>::empty());
        assert(s@ =~= nat_text(ids@.len()) + ids_text(ids@.take(0)));
    }
    let mut j: usize = 0;
    while j < ids.len()
        invariant
            j <= ids@.len(),
            s@ == nat_text(ids@.len()) + ids_text(ids@.take(j as int)),
        decreases ids@.len() - j,
    {
        proof {
            reveal_strlit(":");
        }
        s.append(":");
        let t = u64_to_string(ids[j]);
        s.append(t.as_str());
        proof {
            lemma_ids_snoc(ids@, j as int);
            assert(s@ =~= nat_text(ids@.len()) + ids_text(ids@.take(j + 1)));
        }
        j = j + 1;
    }
    proof {
        assert(ids@.take(ids@.len() as int) =~= ids@);
    }
    s
}

} // verus!
