use vstd::prelude::*;
use vstd::utf8::{decode_utf8, valid_utf8};

use crate::text::{
    chars_of, contains_pattern, find_char, find_char_in, has_pattern, string_of_range, utf8_text,
};

verus! {

/// Joins the player slots into one transmission: a `'#'` followed by every
/// slot in order, with no separator added.
pub fn stringvec_to_string(arr: Vec<String>) -> (ret: String)
    ensures
        ret@ == seq!['#'] + arr.deep_view().flatten(),
{
    let mut ret = String::from_str("#");
    proof {
        reveal_strlit("#");
    }
    let n = arr.len();
    for i in 0..n
        invariant
            n == arr.len(),
            ret@ == seq!['#'] + arr.deep_view().take(i as int).flatten(),
    {
        ret.append(arr[i].as_str());
        proof {
            let dv = arr.deep_view();
            assert(dv.take(i + 1).drop_last() =~= dv.take(i as int));
            assert(dv[i as int] == arr[i as int]@);
            dv.take(i as int).lemma_flatten_push(dv[i as int]);
            assert(dv.take(i + 1) =~= dv.take(i as int).push(dv[i as int]));
        }
    }
    proof {
        assert(arr.deep_view().take(n as int) =~= arr.deep_view());
    }
    ret
}

} // verus!

verus! {

/// Number of player slots the server keeps.
pub const MAX_USERS: usize = 5;

/// Text of a slot that no player holds.
pub open spec fn free_slot() -> Seq<char> {
    seq!['(', ')', ';']
}

/// Text a slot takes when a player joins, until the player first reports.
pub open spec fn joined_slot() -> Seq<char> {
    seq!['7', ',', '0', ';']
}

/// What a client sends to leave.
pub open spec fn disconnect_request() -> Seq<char> {
    seq!['(', 'D', 'I', 'S', 'C', 'O', 'N', 'N', 'E', 'C', 'T', ')']
}

/// The character that ends a client's report.
pub open spec fn report_end() -> char {
    '~'
}

/// The server's state as values: one text per slot, and the number of
/// players that joined and have not left.
pub struct LobbyView {
    pub slots: Seq<Seq<char>>,
    pub active: int,
}

/// What became of a message that a client sent.
#[derive(Debug, Clone, Copy, PartialEq, Eq, Structural)]
pub enum Received {
    /// The slot now holds the text before the first `'~'`.
    Stored,
    /// The client asked to leave; its slot is free again.
    Left,
    /// The bytes are not UTF-8; nothing changed and the connection ends.
    Undecodable,
}

/// `k` is the last free slot.
pub open spec fn is_last_free(slots: Seq<Seq<char>>, k: int) -> bool {
    &&& 0 <= k < slots.len()
    &&& slots[k] == free_slot()
    &&& forall|j: int| k < j < slots.len() ==> slots[j] != free_slot()
}

/// The last free slot, if any.
pub open spec fn last_free(slots: Seq<Seq<char>>) -> Option<int> {
    if exists|k: int| is_last_free(slots, k) {
        Some(choose|k: int| is_last_free(slots, k))
    } else {
        None
    }
}

/// The last free slot is unique.
pub proof fn lemma_last_free_unique(slots: Seq<Seq<char>>, k: int)
    requires
        is_last_free(slots, k),
    ensures
        last_free(slots) == Some(k),
{
    let w = choose|w: int| is_last_free(slots, w);
    assert(is_last_free(slots, w));
    if w < k {
        assert(slots[k] == free_slot());
    } else if k < w {
        assert(slots[w] == free_slot());
    }
}

/// A player joins: the last free slot becomes `joined_slot()`.
/// `None` when no slot is free, and then nothing changes.
pub open spec fn join_spec(v: LobbyView) -> (Option<int>, LobbyView) {
    match last_free(v.slots) {
        Some(k) => (Some(k), LobbyView { slots: v.slots.update(k, joined_slot()), active: v.active + 1 }),
        None => (None, v),
    }
}

/// Player `id` leaves: its slot is free again and one player fewer is active.
pub open spec fn leave_spec(v: LobbyView, id: int) -> LobbyView {
    LobbyView { slots: v.slots.update(id, free_slot()), active: v.active - 1 }
}

/// The text of a report: what stands before its first `'~'`.
pub open spec fn report_text(t: Seq<char>) -> Seq<char> {
    t.take(find_char(t, report_end())->0)
}

/// The bytes a client sent can be handled: when they are UTF-8 and do not
/// ask to leave, the text holds a `'~'` (without one the server cannot go on).
pub open spec fn report_terminated(bytes: Seq<u8>) -> bool {
    (valid_utf8(bytes) && !has_pattern(decode_utf8(bytes), disconnect_request()))
        ==> find_char(decode_utf8(bytes), report_end()) is Some
}

/// The bytes a client sent are UTF-8 and ask to leave.
pub open spec fn asks_to_leave(bytes: Seq<u8>) -> bool {
    valid_utf8(bytes) && has_pattern(decode_utf8(bytes), disconnect_request())
}

/// The server's handling of text `t` received from player `id`: a
/// disconnect request frees the slot, any other text is stored up to its `'~'`.
pub open spec fn receive_text_spec(v: LobbyView, id: int, t: Seq<char>) -> (Received, LobbyView) {
    if has_pattern(t, disconnect_request()) {
        (Received::Left, leave_spec(v, id))
    } else {
        (Received::Stored, LobbyView { slots: v.slots.update(id, report_text(t)), active: v.active })
    }
}

/// The server's handling of the bytes received from player `id`.
pub open spec fn receive_spec(v: LobbyView, id: int, bytes: Seq<u8>) -> (Received, LobbyView) {
    if valid_utf8(bytes) {
        receive_text_spec(v, id, decode_utf8(bytes))
    } else {
        (Received::Undecodable, v)
    }
}

/// What the server sends to player `id`: every other slot, in order, after a `'#'`.
pub open spec fn snapshot_spec(v: LobbyView, id: int) -> Seq<char> {
    seq!['#'] + v.slots.remove(id).flatten()
}

/// The player slots of the server and the count of active players.
pub struct Lobby {
    slots: Vec<String>,
    active: usize,
}

impl View for Lobby {
    type V = LobbyView;

    closed spec fn view(&self) -> LobbyView {
        LobbyView { slots: self.slots.deep_view(), active: self.active as int }
    }
}

impl Lobby {
    /// The lobby always holds `MAX_USERS` slots.
    #[verifier::type_invariant]
    closed spec fn well_formed(self) -> bool {
        self.slots.len() == MAX_USERS
    }

    /// A lobby with every slot free and nobody active.
    pub fn new() -> (r: Lobby)
        ensures
            r@.slots == Seq::new(MAX_USERS as nat, |i: int| free_slot()),
            r@.active == 0,
    {
        let mut slots: Vec<String> = Vec::new();
        for i in 0..MAX_USERS
            invariant
                slots.deep_view() == Seq::new(i as nat, |j: int| free_slot()),
        {
            let s = String::from_str("();");
            proof {
                reveal_strlit("();");
                assert(s@ =~= free_slot());
            }
            let ghost before = slots.deep_view();
            let ghost sv = s@;
            slots.push(s);
            proof {
                assert(slots.deep_view() =~= before.push(sv));
                assert(slots.deep_view() =~= Seq::new((i + 1) as nat, |j: int| free_slot()));
            }
        }
        Lobby { slots, active: 0 }
    }

    /// The active count is never negative and fits a `usize`.
    pub proof fn lemma_active_bounds(&self)
        ensures
            0 <= self@.active <= usize::MAX,
    {
    }

    /// Whether the bytes a client sent are UTF-8 and ask to leave.
    pub fn is_disconnect_request(data: &[u8]) -> (r: bool)
        ensures
            r == asks_to_leave(data@),
    {
        match utf8_text(data) {
            None => false,
            Some(text) => {
                let chars = chars_of(text);
                let request = chars_of("(DISCONNECT)");
                proof {
                    reveal_strlit("(DISCONNECT)");
                    assert(request@ =~= disconnect_request());
                }
                contains_pattern(&chars, &request)
            },
        }
    }

    /// Whether the bytes a client sent can be handled: not UTF-8, a
    /// disconnect request, or a text that holds a `'~'`.
    pub fn is_terminated_report(data: &[u8]) -> (r: bool)
        ensures
            r == report_terminated(data@),
    {
        match utf8_text(data) {
            None => true,
            Some(text) => {
                let chars = chars_of(text);
                let request = chars_of("(DISCONNECT)");
                proof {
                    reveal_strlit("(DISCONNECT)");
                    assert(request@ =~= disconnect_request());
                }
                contains_pattern(&chars, &request) || find_char_in(&chars, '~').is_some()
            },
        }
    }

    /// Number of slots, which is always `MAX_USERS`.
    pub fn slot_count(&self) -> (r: usize)
        ensures
            r == self@.slots.len(),
            r == MAX_USERS,
    {
        proof {
            use_type_invariant(self);
        }
        self.slots.len()
    }

    /// Number of players that joined and have not left.
    pub fn active_count(&self) -> (r: usize)
        ensures
            r == self@.active,
    {
        self.active
    }

    /// The text of each slot.
    pub fn slot_texts(&self) -> (r: Vec<String>)
        ensures
            r.deep_view() == self@.slots,
    {
        self.slots.clone()
    }

    /// Whether another client may be admitted: fewer players are active than
    /// there are slots.
    pub fn has_room(&self) -> (r: bool)
        ensures
            r == (self@.active < self@.slots.len()),
    {
        self.active < self.slots.len()
    }

    /// The last free slot, if any.
    pub fn free_slot_index(&self) -> (r: Option<usize>)
        ensures
            r matches Some(k) ==> last_free(self@.slots) == Some(k as int),
            r is None ==> last_free(self@.slots) is None,
    {
        let free = String::from_str("();");
        proof {
            reveal_strlit("();");
            assert(free@ =~= free_slot());
        }
        let ghost slots = self@.slots;
        let n = self.slots.len();
        let mut found: Option<usize> = None;
        for i in 0..n
            invariant
                n == self.slots.len(),
                slots == self.slots.deep_view(),
                free@ == free_slot(),
                found is None ==> forall|j: int| 0 <= j < i ==> slots[j] != free_slot(),
                found matches Some(k) ==> k < i && slots[k as int] == free_slot() && forall|j: int|
                    k < j < i ==> slots[j] != free_slot(),
        {
            if self.slots[i] == free {
                found = Some(i);
            }
        }
        match found {
            Some(k) => {
                proof {
                    lemma_last_free_unique(slots, k as int);
                }
            },
            None => {
                proof {
                    assert(!exists|k: int| is_last_free(slots, k));
                }
            },
        }
        found
    }

    /// Whether some slot is free.
    pub fn has_free_slot(&self) -> (r: bool)
        ensures
            r == (last_free(self@.slots) is Some),
    {
        self.free_slot_index().is_some()
    }

    /// A player joins: the last free slot is taken, and its index returned.
    /// Some slot must be free (without one the server cannot go on).
    pub fn join(&mut self) -> (r: usize)
        requires
            last_free(old(self)@.slots) is Some,
            old(self)@.active < usize::MAX,
        ensures
            join_spec(old(self)@).0 == Some(r as int),
            final(self)@ == join_spec(old(self)@).1,
            0 <= final(self)@.active <= usize::MAX,
            final(self)@.slots.len() == MAX_USERS,
    {
        proof {
            use_type_invariant(&*self);
        }
        let ghost slots = self@.slots;
        let k = self.free_slot_index().unwrap();
        let taken = String::from_str("7,0;");
        proof {
            reveal_strlit("7,0;");
            assert(taken@ =~= joined_slot());
        }
        let ghost tv = taken@;
        let mut updated = self.slots.clone();
        assert(updated.deep_view() =~= self.slots.deep_view());
        updated.set(k, taken);
        self.slots = updated;
        self.active = self.active + 1;
        proof {
            assert(self.slots.deep_view() =~= slots.update(k as int, tv));
        }
        k
    }

    /// Player `id` leaves: its slot is free again.
    pub fn leave(&mut self, id: usize)
        requires
            id < old(self)@.slots.len(),
            old(self)@.active > 0,
        ensures
            final(self)@ == leave_spec(old(self)@, id as int),
            0 <= final(self)@.active <= usize::MAX,
            final(self)@.slots.len() == MAX_USERS,
    {
        proof {
            use_type_invariant(&*self);
        }
        let ghost slots = self@.slots;
        let free = String::from_str("();");
        proof {
            reveal_strlit("();");
            assert(free@ =~= free_slot());
        }
        let mut updated = self.slots.clone();
        assert(updated.deep_view() =~= self.slots.deep_view());
        updated.set(id, free);
        self.slots = updated;
        self.active = self.active - 1;
        proof {
            assert(self.slots.deep_view() =~= slots.update(id as int, free_slot()));
        }
    }

    /// What the server sends to player `id`: the other slots after a `'#'`.
    pub fn snapshot_for(&self, id: usize) -> (r: String)
        requires
            id < self@.slots.len(),
        ensures
            r@ == snapshot_spec(self@, id as int),
    {
        let mut others = self.slots.clone();
        assert(others.deep_view() =~= self.slots.deep_view());
        others.remove(id);
        proof {
            assert(others.deep_view() =~= self@.slots.remove(id as int));
        }
        stringvec_to_string(others)
    }

    /// Handles the bytes that player `id` sent: a disconnect request frees
    /// the slot, a report is stored up to its `'~'`, bytes that are not UTF-8
    /// change nothing.
    pub fn receive(&mut self, id: usize, data: &[u8]) -> (r: Received)
        requires
            id < old(self)@.slots.len(),
            asks_to_leave(data@) ==> old(self)@.active > 0,
            report_terminated(data@),
        ensures
            (r, final(self)@) == receive_spec(old(self)@, id as int, data@),
            0 <= final(self)@.active <= usize::MAX,
            final(self)@.slots.len() == MAX_USERS,
    {
        proof {
            use_type_invariant(&*self);
        }
        match utf8_text(data) {
            None => Received::Undecodable,
            Some(text) => {
                let chars = chars_of(text);
                let request = chars_of("(DISCONNECT)");
                proof {
                    reveal_strlit("(DISCONNECT)");
                    assert(request@ =~= disconnect_request());
                }
                if contains_pattern(&chars, &request) {
                    self.leave(id);
                    Received::Left
                } else {
                    match find_char_in(&chars, '~') {
                        Some(k) => {
                            let ghost slots = self@.slots;
                            let report = string_of_range(&chars, 0, k);
                            let ghost rv = report@;
                            let mut updated = self.slots.clone();
                            assert(updated.deep_view() =~= self.slots.deep_view());
                            updated.set(id, report);
                            self.slots = updated;
                            proof {
                                assert(chars@.subrange(0, k as int) =~= chars@.take(k as int));
                                assert(self.slots.deep_view() =~= slots.update(id as int, rv));
                            }
                            Received::Stored
                        },
                        // `report_terminated` leaves no such text.
                        None => Received::Undecodable,
                    }
                }
            },
        }
    }
}

} // verus!
