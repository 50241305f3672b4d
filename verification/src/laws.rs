//! Properties that hold across the operations of the library.

use vstd::prelude::*;
use vstd::utf8::{decode_utf8, encode_utf8, encode_utf8_decode_utf8, encode_utf8_valid_utf8, valid_utf8};

use crate::chat::{
    absorb_spec, chat_step_spec, is_noted, note_spec, records_fit, ChatBoxView, ChatKeysView,
    ChatLogView, CHAT_LOG_LIMIT, MAX_PLAYERS,
};
use crate::lobby::{
    disconnect_request, free_slot, is_last_free, join_spec, joined_slot, last_free, leave_spec,
    receive_spec, report_terminated, report_text, snapshot_spec, LobbyView, Received,
};
use crate::bullets::unmarked;
use crate::report::{report_spec, LocalPlayerDetails};
use crate::roster::{
    bullet_fields_spec, coordinate_chars, player_entries, BulletView, position_texts_with, record_spec, roster_spec, PlayerRecordView,
};
use crate::text::{
    is_white_space, parse_usize_spec, trim_end_spec, trim_spec, trim_start_spec,
    find_char, has_pattern, is_first_index, lemma_find_char_some, lemma_first_index_unique,
    lemma_split_on_len, split_on,
};

verus! {

/// A player who joins and then leaves leaves the lobby as it was.
pub proof fn law_leave_undoes_join(v: LobbyView)
    requires
        join_spec(v).0 is Some,
    ensures
        leave_spec(join_spec(v).1, join_spec(v).0->0) == v,
{
    let k = choose|k: int| is_last_free(v.slots, k);
    assert(is_last_free(v.slots, k));
    let after = leave_spec(join_spec(v).1, k);
    assert(after.slots =~= v.slots);
}

/// A join takes the last free slot, and fails only when no slot is free.
pub proof fn law_join_takes_last_free_slot(v: LobbyView)
    ensures
        join_spec(v).0 matches Some(k) ==> {
            &&& 0 <= k < v.slots.len()
            &&& v.slots[k] == free_slot()
            &&& forall|j: int| k < j < v.slots.len() ==> v.slots[j] != free_slot()
        },
        join_spec(v).0 is None ==> forall|j: int| 0 <= j < v.slots.len() ==> v.slots[j] != free_slot(),
{
    if last_free(v.slots) is Some {
        let k = choose|k: int| is_last_free(v.slots, k);
        assert(is_last_free(v.slots, k));
    } else {
        assert forall|j: int| 0 <= j < v.slots.len() implies v.slots[j] != free_slot() by {
            if v.slots[j] == free_slot() {
                lemma_some_last_free(v.slots, j);
            }
        }
    }
}

/// A free slot at `j` means there is a last free slot.
proof fn lemma_some_last_free(slots: Seq<Seq<char>>, j: int)
    requires
        0 <= j < slots.len(),
        slots[j] == free_slot(),
    ensures
        exists|k: int| is_last_free(slots, k),
    decreases slots.len() - j,
{
    if exists|i: int| j < i < slots.len() && slots[i] == free_slot() {
        let i = choose|i: int| j < i < slots.len() && slots[i] == free_slot();
        lemma_some_last_free(slots, i);
    } else {
        assert(is_last_free(slots, j));
    }
}

/// What a player is sent does not depend on that player's own slot.
pub proof fn law_snapshot_ignores_own_slot(v: LobbyView, id: int, text: Seq<char>)
    requires
        0 <= id < v.slots.len(),
    ensures
        snapshot_spec(LobbyView { slots: v.slots.update(id, text), active: v.active }, id)
            == snapshot_spec(v, id),
{
    assert(v.slots.update(id, text).remove(id) =~= v.slots.remove(id));
}

/// A stored report never holds the `'~'` that ends a report.
pub proof fn law_stored_report_unterminated(v: LobbyView, id: int, bytes: Seq<u8>)
    requires
        0 <= id < v.slots.len(),
        report_terminated(bytes),
        receive_spec(v, id, bytes).0 == Received::Stored,
    ensures
        find_char(receive_spec(v, id, bytes).1.slots[id], '~') is None,
{
    let t = decode_utf8(bytes);
    let k = find_char(t, '~')->0;
    lemma_find_char_some(t, '~');
    let stored = t.take(k);
    assert(receive_spec(v, id, bytes).1.slots[id] == stored);
    assert forall|j: int| 0 <= j < stored.len() implies stored[j] != '~' by {
        assert(stored[j] == t[j]);
    }
}

/// The report a client writes is what the server stores for it, less the
/// `"~ "` that ends it, when no field holds a `'~'` and the report does not
/// ask to disconnect.
pub proof fn law_report_is_stored(v: LobbyView, id: int, d: LocalPlayerDetails)
    requires
        0 <= id < v.slots.len(),
        !has_pattern(report_spec(d), disconnect_request()),
        forall|i: int| 0 <= i < d.name@.len() ==> d.name@[i] != '~',
        forall|i: int| 0 <= i < d.position@[0]@.len() ==> d.position@[0]@[i] != '~',
        forall|i: int| 0 <= i < d.position@[1]@.len() ==> d.position@[1]@[i] != '~',
        forall|j: int, i: int|
            0 <= j < 3 && 0 <= i < d.recent_bullet_position_and_direction@[j]@.len()
                ==> d.recent_bullet_position_and_direction@[j]@[i] != '~',
        forall|i: int| 0 <= i < d.message@.len() ==> d.message@[i] != '~',
    ensures
        receive_spec(v, id, encode_utf8(report_spec(d))) == (
            Received::Stored,
            LobbyView {
                slots: v.slots.update(id, report_spec(d).take(report_spec(d).len() - 2)),
                active: v.active,
            },
        ),
{
    let r = report_spec(d);
    encode_utf8_valid_utf8(r);
    encode_utf8_decode_utf8(r);
    let n = r.len();
    let body = d.name@ + seq![':'] + d.position@[0]@ + seq![','] + d.position@[1]@ + seq![':']
        + d.recent_bullet_position_and_direction@[0]@ + seq![',']
        + d.recent_bullet_position_and_direction@[1]@ + seq![',']
        + d.recent_bullet_position_and_direction@[2]@ + seq![':'] + d.message@;
    assert(r =~= body + seq!['~', ' ']);
    assert forall|j: int| 0 <= j < body.len() implies body[j] != '~' by {
        let b0 = d.recent_bullet_position_and_direction@[0]@;
        let b1 = d.recent_bullet_position_and_direction@[1]@;
        let b2 = d.recent_bullet_position_and_direction@[2]@;
        assert(forall|i: int| 0 <= i < b0.len() ==> b0[i] != '~');
        assert(forall|i: int| 0 <= i < b1.len() ==> b1[i] != '~');
        assert(forall|i: int| 0 <= i < b2.len() ==> b2[i] != '~');
    }
    assert(is_first_index(r, '~', n - 2));
    lemma_first_index_unique(r, '~', n - 2);
}

/// Number of slots some player holds.
pub open spec fn occupied(slots: Seq<Seq<char>>) -> int
    decreases slots.len(),
{
    if slots.len() == 0 {
        0
    } else {
        occupied(slots.drop_last()) + if slots.last() != free_slot() {
            1int
        } else {
            0int
        }
    }
}

/// Replacing one slot changes the count of held slots by what it held and now holds.
proof fn lemma_occupied_update(s: Seq<Seq<char>>, i: int, x: Seq<char>)
    requires
        0 <= i < s.len(),
    ensures
        occupied(s.update(i, x)) == occupied(s) - (if s[i] != free_slot() {
            1int
        } else {
            0int
        }) + (if x != free_slot() {
            1int
        } else {
            0int
        }),
    decreases s.len(),
{
    let u = s.update(i, x);
    if i == s.len() - 1 {
        assert(u.drop_last() =~= s.drop_last());
    } else {
        lemma_occupied_update(s.drop_last(), i, x);
        assert(u.drop_last() =~= s.drop_last().update(i, x));
        assert(u.last() == s.last());
    }
}

/// A join keeps the active count equal to the number of held slots.
pub proof fn law_join_keeps_count(v: LobbyView)
    requires
        v.active == occupied(v.slots),
        join_spec(v).0 is Some,
    ensures
        join_spec(v).1.active == occupied(join_spec(v).1.slots),
{
    let k = choose|k: int| is_last_free(v.slots, k);
    assert(is_last_free(v.slots, k));
    lemma_occupied_update(v.slots, k, joined_slot());
}

/// A leave from a held slot keeps the active count equal to the number of held slots.
pub proof fn law_leave_keeps_count(v: LobbyView, id: int)
    requires
        v.active == occupied(v.slots),
        0 <= id < v.slots.len(),
        v.slots[id] != free_slot(),
    ensures
        leave_spec(v, id).active == occupied(leave_spec(v, id).slots),
{
    lemma_occupied_update(v.slots, id, free_slot());
}

/// Handling what a player in a held slot sent keeps the active count equal
/// to the number of held slots, unless the stored report is the free-slot text.
pub proof fn law_receive_keeps_count(v: LobbyView, id: int, bytes: Seq<u8>)
    requires
        v.active == occupied(v.slots),
        0 <= id < v.slots.len(),
        v.slots[id] != free_slot(),
        report_terminated(bytes),
        receive_spec(v, id, bytes).0 == Received::Stored ==> receive_spec(v, id, bytes).1.slots[id]
            != free_slot(),
    ensures
        receive_spec(v, id, bytes).1.active == occupied(receive_spec(v, id, bytes).1.slots),
{
    let t = decode_utf8(bytes);
    if valid_utf8(bytes) {
        if has_pattern(t, disconnect_request()) {
            lemma_occupied_update(v.slots, id, free_slot());
        } else {
            lemma_occupied_update(v.slots, id, report_text(t));
        }
    }
}

/// A message that repeats the sender's last one changes nothing.
pub proof fn law_repeated_message_logged_once(v: ChatLogView, id: int, name: Seq<char>, message: Seq<char>)
    requires
        0 <= id < v.last.len(),
    ensures
        note_spec(note_spec(v, id, name, message), id, name, message) == note_spec(v, id, name, message),
        note_spec(v, id, name, message).last[id] == message,
{
}

/// A message from another player never grows the log past
/// `CHAT_LOG_LIMIT` lines, nor past its former length.
pub proof fn law_log_bounded(v: ChatLogView, id: int, name: Seq<char>, message: Seq<char>)
    requires
        0 <= id < v.last.len(),
    ensures
        note_spec(v, id, name, message).lines.len() <= if v.lines.len() >= CHAT_LOG_LIMIT {
            v.lines.len() as int
        } else {
            CHAT_LOG_LIMIT as int
        },
{
}

/// Whatever roster arrives, the log grows past neither `CHAT_LOG_LIMIT`
/// lines nor its former length, and keeps a last message for each player.
pub proof fn law_roster_keeps_log_bounded(v: ChatLogView, rs: Seq<PlayerRecordView>)
    ensures
        absorb_spec(v, rs).lines.len() <= if v.lines.len() >= CHAT_LOG_LIMIT {
            v.lines.len() as int
        } else {
            CHAT_LOG_LIMIT as int
        },
        v.last.len() == MAX_PLAYERS ==> absorb_spec(v, rs).last.len() == MAX_PLAYERS,
    decreases rs.len(),
{
    if rs.len() > 0 {
        law_roster_keeps_log_bounded(v, rs.drop_last());
    }
}

/// The noted records carry pairwise different player ids.
pub open spec fn noted_ids_distinct(rs: Seq<PlayerRecordView>) -> bool {
    forall|i: int, j: int|
        0 <= i < j < rs.len() && is_noted(#[trigger] rs[i]) && is_noted(#[trigger] rs[j])
            ==> rs[i].id != rs[j].id
}

/// After a roster, each noted record's message is its player's last message.
proof fn lemma_absorb_remembers(v: ChatLogView, rs: Seq<PlayerRecordView>)
    requires
        v.last.len() == MAX_PLAYERS,
        records_fit(rs),
        noted_ids_distinct(rs),
    ensures
        forall|j: int| 0 <= j < rs.len() && is_noted(#[trigger] rs[j])
            ==> absorb_spec(v, rs).last[rs[j].id->0 as int] == rs[j].message,
    decreases rs.len(),
{
    if rs.len() > 0 {
        let init = rs.drop_last();
        assert(records_fit(init)) by {
            assert forall|i: int| 0 <= i < init.len() && is_noted(#[trigger] init[i]) implies init[i].id->0
                < MAX_PLAYERS by {
                assert(init[i] == rs[i]);
            }
        }
        assert(noted_ids_distinct(init)) by {
            assert forall|i: int, j: int|
                0 <= i < j < init.len() && is_noted(#[trigger] init[i]) && is_noted(#[trigger] init[j]) implies init[i].id
                != init[j].id by {
                assert(init[i] == rs[i] && init[j] == rs[j]);
            }
        }
        lemma_absorb_remembers(v, init);
        law_roster_keeps_log_bounded(v, init);
        let l = rs.len() - 1;
        assert forall|j: int| 0 <= j < rs.len() && is_noted(#[trigger] rs[j]) implies absorb_spec(
            v,
            rs,
        ).last[rs[j].id->0 as int] == rs[j].message by {
            assert(rs[l] == rs.last());
            if j < l {
                assert(init[j] == rs[j]);
                assert(rs[j].id->0 < MAX_PLAYERS);
                if is_noted(rs.last()) {
                    assert(rs[j].id != rs[l].id);
                }
            } else {
                assert(rs[j].id->0 < MAX_PLAYERS);
            }
        }
    }
}

/// Records whose messages are already each player's last message change nothing.
proof fn lemma_absorb_settled(w: ChatLogView, rs: Seq<PlayerRecordView>)
    requires
        records_fit(rs),
        w.last.len() == MAX_PLAYERS,
        forall|j: int| 0 <= j < rs.len() && is_noted(#[trigger] rs[j]) ==> w.last[rs[j].id->0 as int] == rs[j].message,
    ensures
        absorb_spec(w, rs) == w,
    decreases rs.len(),
{
    if rs.len() > 0 {
        let init = rs.drop_last();
        assert(records_fit(init)) by {
            assert forall|i: int| 0 <= i < init.len() && is_noted(#[trigger] init[i]) implies init[i].id->0
                < MAX_PLAYERS by {
                assert(init[i] == rs[i]);
            }
        }
        assert forall|j: int| 0 <= j < init.len() && is_noted(#[trigger] init[j]) implies w.last[init[j].id->0 as int]
            == init[j].message by {
            assert(init[j] == rs[j]);
        }
        lemma_absorb_settled(w, init);
        assert(rs.last() == rs[rs.len() - 1]);
    }
}

/// Reading the same roster twice changes nothing more than reading it once,
/// when its messages come from different players.
pub proof fn law_roster_read_twice(v: ChatLogView, rs: Seq<PlayerRecordView>)
    requires
        v.last.len() == MAX_PLAYERS,
        records_fit(rs),
        noted_ids_distinct(rs),
    ensures
        absorb_spec(absorb_spec(v, rs), rs) == absorb_spec(v, rs),
{
    lemma_absorb_remembers(v, rs);
    law_roster_keeps_log_bounded(v, rs);
    lemma_absorb_settled(absorb_spec(v, rs), rs);
}

/// In an open chat box, `Backspace` takes back one typed character.
pub proof fn law_backspace_undoes_typing(draft: Seq<char>, c: char)
    ensures
        ({
            let open = ChatBoxView { chat_mode: true, draft: draft };
            let typing = ChatKeysView {
                t_released: false,
                text: Some(seq![c]),
                backspace_released: false,
                escape_down: false,
                enter_released: false,
            };
            let erasing = ChatKeysView {
                t_released: false,
                text: None,
                backspace_released: true,
                escape_down: false,
                enter_released: false,
            };
            chat_step_spec(chat_step_spec(open, typing).0, erasing) == (open, None::<Seq<char>>)
        }),
{
    assert((draft + seq![c]).drop_last() =~= draft);
}

/// The pieces joined again with the separator.
pub open spec fn join_with(pieces: Seq<Seq<char>>, sep: char) -> Seq<char>
    decreases pieces.len(),
{
    if pieces.len() <= 1 {
        if pieces.len() == 1 {
            pieces[0]
        } else {
            Seq::empty()
        }
    } else {
        join_with(pieces.drop_last(), sep) + seq![sep] + pieces.last()
    }
}

/// Splitting loses nothing: the pieces joined with the separator give back
/// the text, and no piece holds the separator.
pub proof fn law_split_join(s: Seq<char>, sep: char)
    ensures
        join_with(split_on(s, sep), sep) == s,
        forall|i: int, j: int|
            0 <= i < split_on(s, sep).len() && 0 <= j < split_on(s, sep)[i].len()
                ==> split_on(s, sep)[i][j] != sep,
    decreases s.len(),
{
    if s.len() > 0 {
        let init = split_on(s.drop_last(), sep);
        law_split_join(s.drop_last(), sep);
        lemma_split_on_len(s.drop_last(), sep);
        let p = split_on(s, sep);
        if s.last() == sep {
            assert(p.drop_last() =~= init);
            assert(s =~= s.drop_last() + seq![sep] + Seq::<char>::empty());
        } else {
            let l = init.len() - 1;
            if init.len() == 1 {
                assert(s =~= init[0].push(s.last()));
            } else {
                assert(p.drop_last() =~= init.drop_last());
                assert(join_with(init, sep) == join_with(init.drop_last(), sep) + seq![sep] + init.last());
                let a = join_with(init.drop_last(), sep) + seq![sep];
                assert(s.drop_last() == a + init.last());
                assert(s =~= s.drop_last().push(s.last()));
                assert((a + init.last()).push(s.last()) =~= a + init.last().push(s.last()));
                assert(p.last() == init.last().push(s.last()));
            }
            assert forall|i: int, j: int| 0 <= i < p.len() && 0 <= j < p[i].len() implies p[i][j] != sep by {
                if i == l && j == p[i].len() - 1 {
                } else if i == l {
                    assert(p[i][j] == init[i][j]);
                } else {
                    assert(p[i] == init[i]);
                }
            }
        }
    }
}

/// Text that asks to leave, `(DISCONNECT)`, spelled out.
pub open spec fn leave_words() -> Seq<char> {
    seq!['(', 'D', 'I', 'S', 'C', 'O', 'N', 'N', 'E', 'C', 'T', ')']
}

/// A text that contains `(DISCONNECT)` anywhere frees the sender's slot
/// (back to `();`) and lowers the active count by one, whatever else the text
/// holds, a `'~'` included.
pub proof fn law_disconnect_always_leaves(v: LobbyView, id: int, bytes: Seq<u8>, at: int)
    requires
        valid_utf8(bytes),
        0 <= at && at + 12 <= decode_utf8(bytes).len(),
        decode_utf8(bytes).subrange(at, at + 12) == leave_words(),
    ensures
        receive_spec(v, id, bytes) == (
            Received::Left,
            LobbyView { slots: v.slots.update(id, seq!['(', ')', ';']), active: v.active - 1 },
        ),
{
    let t = decode_utf8(bytes);
    assert(leave_words() =~= disconnect_request());
    assert(crate::text::occurs_at(t, disconnect_request(), at));
    assert(free_slot() =~= seq!['(', ')', ';']);
}

/// A text without `(DISCONNECT)` whose first `'~'` is at `k` is stored in the
/// sender's slot as exactly its first `k` characters; nothing else changes.
pub proof fn law_report_stored_up_to_first_tilde(v: LobbyView, id: int, bytes: Seq<u8>, k: int)
    requires
        valid_utf8(bytes),
        forall|i: int| 0 <= i && i + 12 <= decode_utf8(bytes).len() ==> #[trigger] decode_utf8(bytes).subrange(i, i + 12)
            != leave_words(),
        0 <= k < decode_utf8(bytes).len(),
        decode_utf8(bytes)[k] == '~',
        forall|j: int| 0 <= j < k ==> decode_utf8(bytes)[j] != '~',
    ensures
        receive_spec(v, id, bytes) == (
            Received::Stored,
            LobbyView { slots: v.slots.update(id, decode_utf8(bytes).take(k)), active: v.active },
        ),
{
    let t = decode_utf8(bytes);
    assert(leave_words() =~= disconnect_request());
    if has_pattern(t, disconnect_request()) {
        let i = choose|i: int| crate::text::occurs_at(t, disconnect_request(), i);
        assert(t.subrange(i, i + 12) != leave_words());
    }
    assert(is_first_index(t, '~', k));
    lemma_first_index_unique(t, '~', k);
}

/// Bytes that are not UTF-8 change nothing.
pub proof fn law_undecodable_changes_nothing(v: LobbyView, id: int, bytes: Seq<u8>)
    requires
        !valid_utf8(bytes),
    ensures
        receive_spec(v, id, bytes) == (Received::Undecodable, v),
{
}

/// One chat-box frame, key by key. A closed box that `T` does not open
/// ignores the frame. Otherwise the box ends open exactly when `Escape` is not
/// held; the typed text is appended and `Backspace` drops one character; on
/// `Enter` that line is sent and the draft emptied, else it is kept.
pub proof fn law_chat_frame(b: ChatBoxView, k: ChatKeysView)
    ensures
        ({
            let (after, sent) = chat_step_spec(b, k);
            let typed = match k.text {
                Some(s) => b.draft + s,
                None => b.draft,
            };
            let line = if k.backspace_released && typed.len() > 0 {
                typed.take(typed.len() - 1)
            } else {
                typed
            };
            &&& (!b.chat_mode && !k.t_released) ==> after == b && sent is None
            &&& (b.chat_mode || k.t_released) ==> {
                &&& after.chat_mode == !k.escape_down
                &&& k.enter_released ==> sent == Some(line) && after.draft.len() == 0
                &&& !k.enter_released ==> sent is None && after.draft == line
            }
        }),
{
    let typed = match k.text {
        Some(s) => b.draft + s,
        None => b.draft,
    };
    assert(typed.drop_last() =~= typed.take(typed.len() - 1));
}

/// Splitting at a separator between two parts splits each part on its own.
proof fn lemma_split_on_concat(a: Seq<char>, b: Seq<char>, sep: char)
    ensures
        split_on(a + seq![sep] + b, sep) == split_on(a, sep) + split_on(b, sep),
    decreases b.len(),
{
    let s = a + seq![sep] + b;
    if b.len() == 0 {
        assert(s.drop_last() =~= a);
        assert(split_on(b, sep) =~= seq![Seq::<char>::empty()]);
        assert(split_on(a, sep).push(Seq::empty()) =~= split_on(a, sep) + split_on(b, sep));
    } else {
        let b0 = b.drop_last();
        lemma_split_on_concat(a, b0, sep);
        lemma_split_on_len(b0, sep);
        lemma_split_on_len(a, sep);
        assert(s.drop_last() =~= a + seq![sep] + b0);
        assert(s.last() == b.last());
        let x = split_on(a, sep);
        let y = split_on(b0, sep);
        if b.last() == sep {
            assert((x + y).push(Seq::empty()) =~= x + y.push(Seq::empty()));
        } else {
            let z = x + y;
            assert(z.update(z.len() - 1, z.last().push(b.last())) =~= x + y.update(
                y.len() - 1,
                y.last().push(b.last()),
            ));
        }
    }
}

/// A text without the separator is one piece.
proof fn lemma_split_on_single(a: Seq<char>, sep: char)
    requires
        forall|i: int| 0 <= i < a.len() ==> a[i] != sep,
    ensures
        split_on(a, sep) == seq![a],
    decreases a.len(),
{
    if a.len() > 0 {
        lemma_split_on_single(a.drop_last(), sep);
        assert(a.drop_last().push(a.last()) =~= a);
        assert(seq![a.drop_last()].update(0, a.drop_last().push(a.last())) =~= seq![a]);
    } else {
        assert(a =~= Seq::<char>::empty());
    }
}

/// The text holds no `c`.
pub open spec fn free_of(s: Seq<char>, c: char) -> bool {
    forall|i: int| 0 <= i < s.len() ==> s[i] != c
}

/// The report always carries every field, in order, and ends with `"~ "`:
/// when no field holds `':'` (and no coordinate a `','`), the text before
/// `"~ "` splits at `':'` into name, position, bullet and message, the
/// position splits at `','` into x and y, and the bullet into x, y and direction.
pub proof fn law_report_fields(d: LocalPlayerDetails)
    requires
        free_of(d.name@, ':'),
        free_of(d.message@, ':'),
        free_of(d.position@[0]@, ':') && free_of(d.position@[0]@, ','),
        free_of(d.position@[1]@, ':') && free_of(d.position@[1]@, ','),
        forall|j: int| 0 <= j < 3 ==> free_of(#[trigger] d.recent_bullet_position_and_direction@[j]@, ':')
            && free_of(d.recent_bullet_position_and_direction@[j]@, ','),
    ensures
        ({
            let r = report_spec(d);
            let x = d.position@[0]@;
            let y = d.position@[1]@;
            let bx = d.recent_bullet_position_and_direction@[0]@;
            let by = d.recent_bullet_position_and_direction@[1]@;
            let bd = d.recent_bullet_position_and_direction@[2]@;
            let fields = split_on(r.take(r.len() - 2), ':');
            &&& r.len() >= 2
            &&& r.skip(r.len() - 2) == seq!['~', ' ']
            &&& fields.len() == 4
            &&& fields[0] == d.name@
            &&& split_on(fields[1], ',') == seq![x, y]
            &&& split_on(fields[2], ',') == seq![bx, by, bd]
            &&& fields[3] == d.message@
        }),
{
    let r = report_spec(d);
    let x = d.position@[0]@;
    let y = d.position@[1]@;
    let bx = d.recent_bullet_position_and_direction@[0]@;
    let by = d.recent_bullet_position_and_direction@[1]@;
    let bd = d.recent_bullet_position_and_direction@[2]@;
    assert(free_of(bx, ':') && free_of(bx, ','));
    assert(free_of(by, ':') && free_of(by, ','));
    assert(free_of(bd, ':') && free_of(bd, ','));
    let pos = x + seq![','] + y;
    let bul = bx + seq![','] + by + seq![','] + bd;
    let body = d.name@ + seq![':'] + pos + seq![':'] + bul + seq![':'] + d.message@;
    assert(r =~= body + seq!['~', ' ']);
    assert(r.take(r.len() - 2) =~= body);
    assert(r.skip(r.len() - 2) =~= seq!['~', ' ']);
    assert(free_of(pos, ':'));
    assert(free_of(bul, ':'));
    lemma_split_on_single(d.name@, ':');
    lemma_split_on_single(pos, ':');
    lemma_split_on_single(bul, ':');
    lemma_split_on_single(d.message@, ':');
    lemma_split_on_concat(d.name@, pos, ':');
    lemma_split_on_concat(d.name@ + seq![':'] + pos, bul, ':');
    lemma_split_on_concat(d.name@ + seq![':'] + pos + seq![':'] + bul, d.message@, ':');
    assert(split_on(body, ':') =~= seq![d.name@, pos, bul, d.message@]);
    lemma_split_on_single(x, ',');
    lemma_split_on_single(y, ',');
    lemma_split_on_concat(x, y, ',');
    assert(split_on(pos, ',') =~= seq![x, y]);
    lemma_split_on_single(bx, ',');
    lemma_split_on_single(by, ',');
    lemma_split_on_single(bd, ',');
    lemma_split_on_concat(bx, by, ',');
    lemma_split_on_concat(bx + seq![','] + by, bd, ',');
    assert(split_on(bul, ',') =~= seq![bx, by, bd]);
}

/// Every character of `s` may belong to a coordinate (`numeric[i]` tells
/// whether `s[i]` is numeric), and none is the `','` between coordinates.
pub open spec fn all_coordinate(s: Seq<char>, numeric: Seq<bool>) -> bool {
    forall|i: int| 0 <= i < s.len() ==> s[i] != ',' && (numeric[i] || s[i] == '.' || s[i] == '-')
}

/// No character of `s` may belong to a coordinate, and none is a `','`.
pub open spec fn no_coordinate(s: Seq<char>, numeric: Seq<bool>) -> bool {
    forall|i: int| 0 <= i < s.len() ==> s[i] != ',' && !(numeric[i] || s[i] == '.' || s[i] == '-')
}

proof fn lemma_coordinate_chars_all(s: Seq<char>, f: Seq<bool>)
    requires
        s.len() == f.len(),
        all_coordinate(s, f),
    ensures
        coordinate_chars(s, f) == s,
    decreases s.len(),
{
    if s.len() > 0 {
        lemma_coordinate_chars_all(s.drop_last(), f.drop_last());
        assert(s.drop_last().push(s.last()) =~= s);
    }
}

proof fn lemma_coordinate_chars_none(s: Seq<char>, f: Seq<bool>)
    requires
        s.len() == f.len(),
        no_coordinate(s, f),
    ensures
        coordinate_chars(s, f) == Seq::<char>::empty(),
    decreases s.len(),
{
    if s.len() > 0 {
        lemma_coordinate_chars_none(s.drop_last(), f.drop_last());
    }
}

/// A position keeps every coordinate character on its side of the first
/// `','` (signs and points included) and drops every other character: a
/// field of coordinate characters alone is its own x text; `a,b` gives `a`
/// and `b`; a field with no coordinate character gives two empty texts.
pub proof fn law_position_keeps_coordinates(a: Seq<char>, fa: Seq<bool>, b: Seq<char>, fb: Seq<bool>)
    requires
        a.len() == fa.len(),
        b.len() == fb.len(),
    ensures
        all_coordinate(a, fa) ==> position_texts_with(a, fa) == (a, Seq::<char>::empty()),
        all_coordinate(a, fa) && all_coordinate(b, fb) ==> position_texts_with(
            a + seq![','] + b,
            fa + seq![false] + fb,
        ) == (a, b),
        no_coordinate(a, fa) ==> position_texts_with(a, fa) == (Seq::<char>::empty(), Seq::<char>::empty()),
{
    if all_coordinate(a, fa) || no_coordinate(a, fa) {
        crate::text::lemma_find_char_none(a, ',');
    }
    if all_coordinate(a, fa) {
        lemma_coordinate_chars_all(a, fa);
    }
    if no_coordinate(a, fa) {
        lemma_coordinate_chars_none(a, fa);
    }
    if all_coordinate(a, fa) && all_coordinate(b, fb) {
        let s = a + seq![','] + b;
        let f = fa + seq![false] + fb;
        let k = a.len() as int;
        assert(is_first_index(s, ',', k));
        lemma_first_index_unique(s, ',', k);
        assert(s.take(k) =~= a);
        assert(f.take(k) =~= fa);
        assert(s.skip(k + 1) =~= b);
        assert(f.skip(k + 1) =~= fb);
        lemma_coordinate_chars_all(b, fb);
    }
}

/// The total length of the texts.
pub open spec fn total_len(parts: Seq<Seq<char>>) -> int
    decreases parts.len(),
{
    if parts.len() == 0 {
        0
    } else {
        total_len(parts.drop_last()) + parts.last().len()
    }
}

proof fn lemma_total_len_flatten(p: Seq<Seq<char>>)
    ensures
        p.flatten().len() == total_len(p),
    decreases p.len(),
{
    if p.len() > 0 {
        lemma_total_len_flatten(p.drop_last());
        assert(p.drop_last().push(p.last()) =~= p);
        p.drop_last().lemma_flatten_push(p.last());
    }
}

proof fn lemma_total_len_concat(x: Seq<Seq<char>>, y: Seq<Seq<char>>)
    ensures
        total_len(x + y) == total_len(x) + total_len(y),
    decreases y.len(),
{
    if y.len() == 0 {
        assert(x + y =~= x);
    } else {
        lemma_total_len_concat(x, y.drop_last());
        assert((x + y).drop_last() =~= x + y.drop_last());
        assert((x + y).last() == y.last());
    }
}

/// The texts, concatenated, hold `p[m]` right after the texts before it.
proof fn lemma_flatten_at(p: Seq<Seq<char>>, m: int)
    requires
        0 <= m < p.len(),
    ensures
        0 <= total_len(p.take(m)),
        total_len(p.take(m)) + p[m].len() <= p.flatten().len(),
        p.flatten().subrange(total_len(p.take(m)), total_len(p.take(m)) + p[m].len()) == p[m],
{
    let before = p.take(m);
    let rest = p.skip(m + 1);
    assert(p =~= before + (seq![p[m]] + rest));
    vstd::seq_lib::lemma_flatten_concat(before, seq![p[m]] + rest);
    vstd::seq_lib::lemma_flatten_concat(seq![p[m]], rest);
    seq![p[m]].lemma_flatten_one_element();
    lemma_total_len_flatten(before);
    let fl = p.flatten();
    assert(fl =~= before.flatten() + (p[m] + rest.flatten()));
    assert(fl.subrange(total_len(before), total_len(before) + p[m].len()) =~= p[m]);
}

/// What player `id` is sent holds every other slot's text, whatever it is,
/// in slot order: it starts with `'#'`, is one character longer than the
/// other slots together, and slot `j` stands right after `'#'` and the other
/// slots before it.
pub proof fn law_snapshot_holds_every_other_slot(v: LobbyView, id: int)
    requires
        0 <= id < v.slots.len(),
    ensures
        ({
            let s = snapshot_spec(v, id);
            &&& s.len() == 1 + total_len(v.slots) - v.slots[id].len()
            &&& s[0] == '#'
            &&& forall|j: int|
                #![trigger v.slots[j]]
                0 <= j < v.slots.len() && j != id ==> {
                    let o = 1 + total_len(v.slots.take(j)) - if j > id {
                        v.slots[id].len() as int
                    } else {
                        0
                    };
                    s.subrange(o, o + v.slots[j].len()) == v.slots[j]
                }
        }),
{
    let sl = v.slots;
    let r = sl.remove(id);
    let s = snapshot_spec(v, id);
    assert(r =~= sl.take(id) + sl.skip(id + 1));
    assert(sl =~= sl.take(id) + (seq![sl[id]] + sl.skip(id + 1)));
    lemma_total_len_concat(sl.take(id), sl.skip(id + 1));
    lemma_total_len_concat(sl.take(id), seq![sl[id]] + sl.skip(id + 1));
    lemma_total_len_concat(seq![sl[id]], sl.skip(id + 1));
    assert(total_len(seq![sl[id]]) == sl[id].len()) by {
        assert(seq![sl[id]].drop_last() =~= Seq::<Seq<char>>::empty());
        assert(total_len(Seq::<Seq<char>>::empty()) == 0);
    }
    lemma_total_len_flatten(r);
    assert forall|j: int|
        #![trigger sl[j]]
        0 <= j < sl.len() && j != id implies {
            let o = 1 + total_len(sl.take(j)) - if j > id {
                sl[id].len() as int
            } else {
                0
            };
            s.subrange(o, o + sl[j].len()) == sl[j]
        } by {
        let m = if j < id {
            j
        } else {
            j - 1
        };
        assert(r[m] == sl[j]);
        lemma_flatten_at(r, m);
        if j < id {
            assert(r.take(m) =~= sl.take(j));
        } else {
            assert(r.take(m) =~= sl.take(id) + sl.subrange(id + 1, j));
            assert(sl.take(j) =~= sl.take(id) + (seq![sl[id]] + sl.subrange(id + 1, j)));
            lemma_total_len_concat(sl.take(id), sl.subrange(id + 1, j));
            lemma_total_len_concat(sl.take(id), seq![sl[id]] + sl.subrange(id + 1, j));
            lemma_total_len_concat(seq![sl[id]], sl.subrange(id + 1, j));
        }
        let o = 1 + total_len(r.take(m));
        assert(s.subrange(o, o + sl[j].len()) =~= r.flatten().subrange(o - 1, o - 1 + sl[j].len()));
    }
}

/// An entry `id:name:position:bullet:message` whose fields hold no `':'`
/// gives back its id (read as a decimal number), its name and its message,
/// and is not corrupt; a sixth field makes it corrupt.
pub proof fn law_record_fields(
    id_text: Seq<char>,
    name: Seq<char>,
    pos: Seq<char>,
    bullet: Seq<char>,
    message: Seq<char>,
    extra: Seq<char>,
)
    requires
        free_of(id_text, ':'),
        free_of(name, ':'),
        free_of(pos, ':'),
        free_of(bullet, ':'),
        free_of(message, ':'),
        free_of(extra, ':'),
    ensures
        ({
            let e = id_text + seq![':'] + name + seq![':'] + pos + seq![':'] + bullet + seq![':'] + message;
            let r = record_spec(e);
            &&& r.id == parse_usize_spec(id_text)
            &&& r.name == name
            &&& r.position is Some
            &&& !(r.bullet is Absent)
            &&& r.message == message
            &&& !r.corrupt
            &&& record_spec(e + seq![':'] + extra).corrupt
        }),
{
    let a1 = id_text + seq![':'] + name;
    let a2 = a1 + seq![':'] + pos;
    let a3 = a2 + seq![':'] + bullet;
    let e = a3 + seq![':'] + message;
    lemma_split_on_single(id_text, ':');
    lemma_split_on_single(name, ':');
    lemma_split_on_single(pos, ':');
    lemma_split_on_single(bullet, ':');
    lemma_split_on_single(message, ':');
    lemma_split_on_single(extra, ':');
    lemma_split_on_concat(id_text, name, ':');
    lemma_split_on_concat(a1, pos, ':');
    lemma_split_on_concat(a2, bullet, ':');
    lemma_split_on_concat(a3, message, ':');
    lemma_split_on_concat(e, extra, ':');
    assert(split_on(e, ':') =~= seq![id_text, name, pos, bullet, message]);
    assert(split_on(e + seq![':'] + extra, ':') =~= seq![id_text, name, pos, bullet, message, extra]);
}

/// The player entries among the pieces of two lists, in order.
proof fn lemma_player_entries_concat(x: Seq<Seq<char>>, y: Seq<Seq<char>>)
    ensures
        player_entries(x + y) == player_entries(x) + player_entries(y),
    decreases y.len(),
{
    if y.len() == 0 {
        assert(x + y =~= x);
        assert(player_entries(x) + player_entries(y) =~= player_entries(x));
    } else {
        lemma_player_entries_concat(x, y.drop_last());
        assert((x + y).drop_last() =~= x + y.drop_last());
        assert((x + y).last() == y.last());
        let px = player_entries(x);
        let py = player_entries(y.drop_last());
        assert((px + py).push(y.last()) =~= px + py.push(y.last()));
    }
}

/// The roster is read entry by entry: the records of two rosters joined by
/// `';'` are the records of the first followed by those of the second; a
/// single piece without `';'` gives one record when it names a player (not
/// empty, no `'|'`, not the empty-spot marker `()`) and none otherwise.
pub proof fn law_roster_by_entries(a: Seq<char>, b: Seq<char>, e: Seq<char>)
    requires
        free_of(e, ';'),
    ensures
        roster_spec(a + seq![';'] + b) == roster_spec(a) + roster_spec(b),
        (e.len() > 0 && free_of(e, '|') && e != seq!['(', ')']) ==> roster_spec(e) == seq![record_spec(e)],
        !(e.len() > 0 && free_of(e, '|') && e != seq!['(', ')']) ==> roster_spec(e).len() == 0,
{
    lemma_split_on_concat(a, b, ';');
    lemma_player_entries_concat(split_on(a, ';'), split_on(b, ';'));
    let pa = player_entries(split_on(a, ';'));
    let pb = player_entries(split_on(b, ';'));
    assert((pa + pb).map_values(|x: Seq<char>| record_spec(x)) =~= pa.map_values(|x: Seq<char>| record_spec(x))
        + pb.map_values(|x: Seq<char>| record_spec(x)));
    lemma_split_on_single(e, ';');
    assert(seq![e].drop_last() =~= Seq::<Seq<char>>::empty());
    if free_of(e, '|') {
        crate::text::lemma_find_char_none(e, '|');
    } else {
        let i = choose|i: int| 0 <= i < e.len() && e[i] == '|';
        crate::text::lemma_first_occurrence_exists(e, '|', i);
        let k = choose|k: int| 0 <= k <= i && e[k] == '|' && forall|j: int| 0 <= j < k ==> e[j] != '|';
        assert(is_first_index(e, '|', k));
    }
    assert(crate::roster::empty_spot() =~= seq!['(', ')']);
    assert(player_entries(Seq::<Seq<char>>::empty()) =~= Seq::<Seq<char>>::empty());
    assert(seq![e].last() == e);
    if crate::roster::is_player_entry(e) {
        assert(player_entries(seq![e]) =~= seq![e]);
    } else {
        assert(player_entries(seq![e]) =~= Seq::<Seq<char>>::empty());
    }
    assert(player_entries(seq![e]).map_values(|x: Seq<char>| record_spec(x)) =~= (if crate::roster::is_player_entry(e) {
        seq![record_spec(e)]
    } else {
        Seq::empty()
    }));
}

/// A message that differs from the sender's last one adds the line
/// `"[name]: message"` at the end of the log, keeping every earlier line
/// (all but the oldest when the log already holds 20).
pub proof fn law_new_message_appends_line(v: ChatLogView, id: int, name: Seq<char>, message: Seq<char>)
    requires
        0 <= id < v.last.len(),
        v.last[id] != message,
    ensures
        ({
            let w = note_spec(v, id, name, message);
            let line = seq!['['] + name + seq![']', ':', ' '] + message;
            &&& w.last[id] == message
            &&& w.lines.last() == line
            &&& v.lines.len() < 20 ==> w.lines == v.lines.push(line)
            &&& v.lines.len() >= 20 ==> w.lines == v.lines.skip(1).push(line)
        }),
{
    assert(v.lines.drop_first() =~= v.lines.skip(1));
}

/// Marks pick out items independently of one another: unmarked items stay,
/// in order, marked ones go; a list split in two is handled part by part.
pub proof fn law_remove_marked_parts<T>(s1: Seq<T>, m1: Seq<bool>, s2: Seq<T>, m2: Seq<bool>)
    requires
        s1.len() == m1.len(),
        s2.len() == m2.len(),
    ensures
        unmarked(s1 + s2, m1 + m2) == unmarked(s1, m1) + unmarked(s2, m2),
        (forall|i: int| 0 <= i < m1.len() ==> !m1[i]) ==> unmarked(s1, m1) == s1,
        (forall|i: int| 0 <= i < m1.len() ==> m1[i]) ==> unmarked(s1, m1).len() == 0,
    decreases s1.len(),
{
    if s1.len() == 0 {
        assert(s1 + s2 =~= s2);
        assert(m1 + m2 =~= m2);
        assert(unmarked(s1, m1) == Seq::<T>::empty());
        assert(Seq::<T>::empty() + unmarked(s2, m2) =~= unmarked(s2, m2));
        assert(s1 =~= Seq::<T>::empty());
    } else {
        law_remove_marked_parts(s1.drop_first(), m1.drop_first(), s2, m2);
        assert((s1 + s2).drop_first() =~= s1.drop_first() + s2);
        assert((m1 + m2).drop_first() =~= m1.drop_first() + m2);
        assert((s1 + s2)[0] == s1[0]);
        assert((m1 + m2)[0] == m1[0]);
        let r = unmarked(s1.drop_first(), m1.drop_first());
        assert(seq![s1[0]] + (r + unmarked(s2, m2)) =~= (seq![s1[0]] + r) + unmarked(s2, m2));
        if forall|i: int| 0 <= i < m1.len() ==> !m1[i] {
            assert forall|i: int| 0 <= i < m1.drop_first().len() implies !m1.drop_first()[i] by {
                assert(m1.drop_first()[i] == m1[i + 1]);
            }
            assert(seq![s1[0]] + s1.drop_first() =~= s1);
        }
        if forall|i: int| 0 <= i < m1.len() ==> m1[i] {
            assert forall|i: int| 0 <= i < m1.drop_first().len() implies m1.drop_first()[i] by {
                assert(m1.drop_first()[i] == m1[i + 1]);
            }
        }
    }
}

/// Decimal reading: a lone digit reads as its value; one more digit after a
/// readable number multiplies it by ten and adds the digit (when the result
/// fits); a leading `'+'` changes nothing; a text holding a character other
/// than a digit after the optional `'+'` does not read.
pub proof fn law_decimal_reading(s: Seq<char>, c: char)
    ensures
        ('0' <= c <= '9') ==> parse_usize_spec(seq![c]) == Some((c as u32 - '0' as u32) as usize),
        ('0' <= c <= '9') && parse_usize_spec(s) is Some && s[0] != '+'
            && parse_usize_spec(s)->0 * 10 + (c as u32 - '0' as u32) <= usize::MAX
            ==> parse_usize_spec(s.push(c)) == Some(
            (parse_usize_spec(s)->0 * 10 + (c as u32 - '0' as u32)) as usize,
        ),
        (s.len() == 0 || s[0] != '+') ==> parse_usize_spec(seq!['+'] + s) == parse_usize_spec(s),
        (s.len() > 0 && s[0] != '+' && exists|i: int| 0 <= i < s.len() && !('0' <= #[trigger] s[i] <= '9'))
            ==> parse_usize_spec(s) is None,
{
    let one = seq![c];
    assert(one.drop_last() =~= Seq::<char>::empty());
    if '0' <= c <= '9' {
        assert(crate::text::unsigned_digits(one) == one);
        assert(crate::text::decimal_value(Seq::<char>::empty()) == 0);
        assert(crate::text::decimal_value(one) == crate::text::digit_value(c));
        assert(crate::text::all_digits(one)) by {
            assert forall|i: int| 0 <= i < one.len() implies crate::text::is_digit(#[trigger] one[i]) by {
                assert(one[i] == c);
            }
        }
    }
    if ('0' <= c <= '9') && parse_usize_spec(s) is Some && s[0] != '+' {
        let t = s.push(c);
        assert(s.len() > 0);
        assert(t[0] == s[0]);
        assert(t.drop_last() =~= s);
        assert(t.last() == c);
        assert(crate::text::unsigned_digits(s) == s);
        assert(crate::text::unsigned_digits(t) == t);
        assert(crate::text::decimal_value(t) == crate::text::decimal_value(s) * 10 + crate::text::digit_value(c));
        crate::text::lemma_decimal_value_nonneg(s);
        assert(parse_usize_spec(s)->0 == crate::text::decimal_value(s));
        assert((c as u32 - '0' as u32) == crate::text::digit_value(c));
        assert(crate::text::all_digits(t)) by {
            assert forall|i: int| 0 <= i < t.len() implies crate::text::is_digit(#[trigger] t[i]) by {
                if i < s.len() {
                    assert(t[i] == s[i]);
                }
            }
        }
    }
    assert((seq!['+'] + s).drop_first() =~= s);
    if s.len() > 0 && s[0] != '+' && exists|i: int| 0 <= i < s.len() && !('0' <= #[trigger] s[i] <= '9') {
        let i = choose|i: int| 0 <= i < s.len() && !('0' <= #[trigger] s[i] <= '9');
        assert(!crate::text::is_digit(s[i]));
    }
}

proof fn lemma_trim_start(s: Seq<char>) -> (i: int)
    ensures
        0 <= i <= s.len(),
        trim_start_spec(s) == s.skip(i),
        forall|k: int| 0 <= k < i ==> is_white_space(#[trigger] s[k]),
        i < s.len() ==> !is_white_space(s[i]),
    decreases s.len(),
{
    if s.len() > 0 && is_white_space(s[0]) {
        let i = lemma_trim_start(s.drop_first());
        assert(s.drop_first().skip(i) =~= s.skip(i + 1));
        assert forall|k: int| 0 <= k < i + 1 implies is_white_space(#[trigger] s[k]) by {
            if k > 0 {
                assert(s[k] == s.drop_first()[k - 1]);
            }
        }
        i + 1
    } else {
        assert(s.skip(0) =~= s);
        0
    }
}

proof fn lemma_trim_end(s: Seq<char>) -> (j: int)
    ensures
        0 <= j <= s.len(),
        trim_end_spec(s) == s.take(j),
        forall|k: int| j <= k < s.len() ==> is_white_space(#[trigger] s[k]),
        j > 0 ==> !is_white_space(s[j - 1]),
    decreases s.len(),
{
    if s.len() > 0 && is_white_space(s.last()) {
        let j = lemma_trim_end(s.drop_last());
        assert(s.drop_last().take(j) =~= s.take(j));
        assert forall|k: int| j <= k < s.len() implies is_white_space(#[trigger] s[k]) by {
            if k < s.len() - 1 {
                assert(s[k] == s.drop_last()[k]);
            }
        }
        j
    } else {
        assert(s.take(s.len() as int) =~= s);
        s.len() as int
    }
}

/// Trimming removes exactly the white space at both ends: the result is a
/// stretch `s[i..j]` of the text, everything outside it is white space, and
/// it neither starts nor ends with white space.
pub proof fn law_trim_removes_outer_white_space(s: Seq<char>)
    ensures
        exists|i: int, j: int|
            {
                &&& 0 <= i <= j <= s.len()
                &&& trim_spec(s) == s.subrange(i, j)
                &&& forall|k: int| 0 <= k < i ==> is_white_space(#[trigger] s[k])
                &&& forall|k: int| j <= k < s.len() ==> is_white_space(#[trigger] s[k])
                &&& i < j ==> !is_white_space(s[i]) && !is_white_space(s[j - 1])
            },
{
    let i = lemma_trim_start(s);
    let rest = s.skip(i);
    let j = lemma_trim_end(rest);
    assert(trim_spec(s) == rest.take(j));
    assert(rest.take(j) =~= s.subrange(i, i + j));
    assert forall|k: int| i + j <= k < s.len() implies is_white_space(#[trigger] s[k]) by {
        assert(s[k] == rest[k - i]);
    }
    if j > 0 {
        assert(rest[0] == s[i]);
        assert(rest[j - 1] == s[i + j - 1]);
    }
    assert({
        &&& 0 <= i <= i + j <= s.len()
        &&& trim_spec(s) == s.subrange(i, i + j)
        &&& forall|k: int| 0 <= k < i ==> is_white_space(#[trigger] s[k])
        &&& forall|k: int| i + j <= k < s.len() ==> is_white_space(#[trigger] s[k])
        &&& i < i + j ==> !is_white_space(s[i]) && !is_white_space(s[i + j - 1])
    });
}

/// A bullet field `x,y,d` whose parts hold no `','` gives back those three
/// texts; one part more, or one fewer, makes it malformed.
pub proof fn law_bullet_three_parts(x: Seq<char>, y: Seq<char>, d: Seq<char>, w: Seq<char>)
    requires
        free_of(x, ','),
        free_of(y, ','),
        free_of(d, ','),
        free_of(w, ','),
    ensures
        bullet_fields_spec(x + seq![','] + y + seq![','] + d) == BulletView::Fields(x, y, d),
        bullet_fields_spec(x + seq![','] + y) is Malformed,
        bullet_fields_spec(x + seq![','] + y + seq![','] + d + seq![','] + w) is Malformed,
{
    lemma_split_on_single(x, ',');
    lemma_split_on_single(y, ',');
    lemma_split_on_single(d, ',');
    lemma_split_on_single(w, ',');
    lemma_split_on_concat(x, y, ',');
    lemma_split_on_concat(x + seq![','] + y, d, ',');
    lemma_split_on_concat(x + seq![','] + y + seq![','] + d, w, ',');
    assert(split_on(x + seq![','] + y + seq![','] + d, ',') =~= seq![x, y, d]);
}

} // verus!
