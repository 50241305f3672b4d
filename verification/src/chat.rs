//! The client's chat: the log of lines shown in the chat box, the last
//! message seen from each player, and the line being typed.

use vstd::prelude::*;
use vstd::utf8::{decode_utf8, valid_utf8};

use crate::roster::{
    parse_roster, player_entries, record_spec, record_views, roster_spec, PlayerRecord, PlayerRecordView,
};
use crate::text::{
    chars_of, find_char, find_char_in, lemma_split_on_len, parse_usize_spec, pop_char, split_on,
    string_of_range, utf8_text,
};

verus! {

/// Number of players whose last message the client remembers.
pub const MAX_PLAYERS: usize = 20;

/// Length at which the chat log drops its oldest line before taking a
/// line from another player.
pub const CHAT_LOG_LIMIT: usize = 20;

/// The chat line `"[name]: message"`.
pub open spec fn chat_line(name: Seq<char>, message: Seq<char>) -> Seq<char> {
    seq!['['] + name + seq![']', ':', ' '] + message
}

/// The chat log as values.
pub struct ChatLogView {
    /// The last message seen from each player id.
    pub last: Seq<Seq<char>>,
    /// The lines of the log, oldest first.
    pub lines: Seq<Seq<char>>,
}

/// A message from player `id` reaches the log: unless it repeats that
/// player's last message, the line `"[name]: message"` is appended, after
/// dropping the oldest line when the log already holds `CHAT_LOG_LIMIT` lines.
pub open spec fn note_spec(v: ChatLogView, id: int, name: Seq<char>, message: Seq<char>) -> ChatLogView {
    if v.last[id] == message {
        v
    } else {
        ChatLogView {
            last: v.last.update(id, message),
            lines: (if v.lines.len() >= CHAT_LOG_LIMIT {
                v.lines.drop_first()
            } else {
                v.lines
            }).push(chat_line(name, message)),
        }
    }
}

/// A record whose message reaches the log: not corrupt, with a message and a player id.
pub open spec fn is_noted(r: PlayerRecordView) -> bool {
    !r.corrupt && r.message.len() > 0 && r.id is Some
}

/// Every noted message comes from a player id that has a place in the log
/// (any other id stops the client).
pub open spec fn records_fit(rs: Seq<PlayerRecordView>) -> bool {
    forall|i: int| 0 <= i < rs.len() && is_noted(#[trigger] rs[i]) ==> rs[i].id->0 < MAX_PLAYERS
}

/// One record's effect on the log: the message of a noted record is noted.
pub open spec fn absorb_record_spec(v: ChatLogView, r: PlayerRecordView) -> ChatLogView {
    if is_noted(r) && r.id->0 < MAX_PLAYERS {
        note_spec(v, r.id->0 as int, r.name, r.message)
    } else {
        v
    }
}

/// The effect of the records on the log, in order.
pub open spec fn absorb_spec(v: ChatLogView, rs: Seq<PlayerRecordView>) -> ChatLogView
    decreases rs.len(),
{
    if rs.len() == 0 {
        v
    } else {
        absorb_record_spec(absorb_spec(v, rs.drop_last()), rs.last())
    }
}

/// A roster entry has a place in the log: when it has exactly five fields,
/// a non-empty message and a decimal id, the id is below `MAX_PLAYERS`.
pub open spec fn entry_fits(e: Seq<char>) -> bool {
    let f = split_on(e, ':');
    (f.len() == 5 && f[4].len() > 0 && parse_usize_spec(f[0]) is Some)
        ==> parse_usize_spec(f[0])->0 < MAX_PLAYERS
}

/// Every player entry of the roster has a place in the log.
pub open spec fn roster_fits_log(data: Seq<char>) -> bool {
    let es = player_entries(split_on(data, ';'));
    forall|i: int| 0 <= i < es.len() ==> entry_fits(#[trigger] es[i])
}

/// The roster fits the log exactly when its records do.
pub proof fn lemma_roster_fits_log(data: Seq<char>)
    ensures
        roster_fits_log(data) <==> records_fit(roster_spec(data)),
{
    let es = player_entries(split_on(data, ';'));
    let rs = roster_spec(data);
    assert forall|i: int| 0 <= i < es.len() implies (entry_fits(#[trigger] es[i]) <==> (is_noted(rs[i])
        ==> rs[i].id->0 < MAX_PLAYERS)) by {
        assert(rs[i] == record_spec(es[i]));
        lemma_split_on_len(es[i], ':');
    }
    if roster_fits_log(data) {
        assert forall|i: int| 0 <= i < rs.len() && is_noted(#[trigger] rs[i]) implies rs[i].id->0
            < MAX_PLAYERS by {
            assert(entry_fits(es[i]));
        }
    }
    if records_fit(rs) {
        assert forall|i: int| 0 <= i < es.len() implies entry_fits(#[trigger] es[i]) by {
            if is_noted(rs[i]) {
            }
        }
    }
}

/// The text the server sent can be read: when it is UTF-8, it holds a `'~'`
/// and the roster before it fits the log.
pub open spec fn server_text_fits(bytes: Seq<u8>) -> bool {
    valid_utf8(bytes) ==> {
        let t = decode_utf8(bytes);
        &&& find_char(t, '~') is Some
        &&& roster_fits_log(t.take(find_char(t, '~')->0))
    }
}

/// The chat log of a client.
pub struct ChatLog {
    last_messages: Vec<String>,
    lines: Vec<String>,
}

impl View for ChatLog {
    type V = ChatLogView;

    closed spec fn view(&self) -> ChatLogView {
        ChatLogView { last: self.last_messages.deep_view(), lines: self.lines.deep_view() }
    }
}

impl ChatLog {
    /// A slot for the last message of each of `MAX_PLAYERS` players.
    #[verifier::type_invariant]
    closed spec fn well_formed(self) -> bool {
        self.last_messages.len() == MAX_PLAYERS
    }

    /// An empty log that has seen no message.
    pub fn new() -> (r: ChatLog)
        ensures
            r@.last == Seq::new(MAX_PLAYERS as nat, |i: int| Seq::<char>::empty()),
            r@.lines == Seq::<Seq<char>>::empty(),
    {
        let mut last: Vec<String> = Vec::new();
        for i in 0..MAX_PLAYERS
            invariant
                last.deep_view() == Seq::new(i as nat, |j: int| Seq::<char>::empty()),
        {
            let ghost before = last.deep_view();
            let empty = String::new();
            let ghost ev = empty@;
            last.push(empty);
            proof {
                assert(last.deep_view() =~= before.push(ev));
                assert(last.deep_view() =~= Seq::new((i + 1) as nat, |j: int| Seq::<char>::empty()));
            }
        }
        let lines: Vec<String> = Vec::new();
        proof {
            assert(lines.deep_view() =~= Seq::<Seq<char>>::empty());
        }
        ChatLog { last_messages: last, lines }
    }

    /// The number of players whose last message is kept, always `MAX_PLAYERS`.
    pub fn player_count(&self) -> (r: usize)
        ensures
            r == self@.last.len(),
            r == MAX_PLAYERS,
    {
        proof {
            use_type_invariant(self);
        }
        self.last_messages.len()
    }

    /// The lines of the log, oldest first.
    pub fn lines(&self) -> (r: Vec<String>)
        ensures
            r.deep_view() == self@.lines,
    {
        self.lines.clone()
    }

    /// Notes a message from player `id`; returns whether a line was added.
    pub fn note_message(&mut self, id: usize, name: &str, message: &str) -> (r: bool)
        requires
            id < MAX_PLAYERS,
        ensures
            final(self)@ == note_spec(old(self)@, id as int, name@, message@),
            r == (old(self)@.last[id as int] != message@),
            final(self)@.last.len() == MAX_PLAYERS,
    {
        proof {
            use_type_invariant(&*self);
        }
        let ghost old_view = self@;
        let incoming = String::from_str(message);
        if self.last_messages[id] == incoming {
            return false;
        }
        let mut line = String::from_str("[");
        proof {
            reveal_strlit("[");
            reveal_strlit("]: ");
        }
        line.append(name);
        line.append("]: ");
        line.append(message);
        proof {
            assert(line@ =~= chat_line(name@, message@));
        }
        let mut lines = self.lines.clone();
        assert(lines.deep_view() =~= self.lines.deep_view());
        if lines.len() >= CHAT_LOG_LIMIT {
            let ghost before = lines.deep_view();
            lines.remove(0);
            proof {
                assert(lines.deep_view() =~= before.drop_first());
            }
        }
        let ghost kept = lines.deep_view();
        let ghost lv = line@;
        lines.push(line);
        let mut last = self.last_messages.clone();
        assert(last.deep_view() =~= self.last_messages.deep_view());
        last.set(id, incoming);
        proof {
            assert(lines.deep_view() =~= kept.push(lv));
            assert(last.deep_view() =~= old_view.last.update(id as int, message@));
        }
        self.lines = lines;
        self.last_messages = last;
        true
    }
}

impl ChatLog {
    /// Notes the messages of the records in order.
    pub fn absorb(&mut self, records: &Vec<PlayerRecord>)
        requires
            records_fit(record_views(records@)),
        ensures
            final(self)@ == absorb_spec(old(self)@, record_views(records@)),
            final(self)@.last.len() == MAX_PLAYERS,
    {
        proof {
            use_type_invariant(&*self);
        }
        let ghost start = self@;
        let ghost views = record_views(records@);
        let n = records.len();
        for i in 0..n
            invariant
                n == records.len(),
                views == record_views(records@),
                records_fit(views),
                start == old(self)@,
                absorb_spec(start, views.take(i as int)) == self@,
                self@.last.len() == MAX_PLAYERS,
        {
            proof {
                use_type_invariant(&*self);
                assert(views.take(i + 1).drop_last() =~= views.take(i as int));
                assert(views.take(i + 1).last() == records@[i as int]@);
                assert(views[i as int] == records@[i as int]@);
            }
            let rec = &records[i];
            if !rec.corrupt && !rec.message.as_str().is_empty() {
                match rec.id {
                    Some(id) => {
                        proof {
                            assert(is_noted(views[i as int]));
                        }
                        self.note_message(id, rec.name.as_str(), rec.message.as_str());
                    },
                    None => {},
                }
            }
        }
        proof {
            assert(views.take(n as int) =~= views);
        }
    }

    /// Appends a line typed by the local player (the local chat takes no limit).
    pub fn push_local(&mut self, line: String)
        ensures
            final(self)@ == (ChatLogView { last: old(self)@.last, lines: old(self)@.lines.push(line@) }),
            final(self)@.last.len() == MAX_PLAYERS,
    {
        proof {
            use_type_invariant(&*self);
        }
        let ghost before = self@;
        let ghost lv = line@;
        let mut lines = self.lines.clone();
        assert(lines.deep_view() =~= self.lines.deep_view());
        lines.push(line);
        proof {
            assert(lines.deep_view() =~= before.lines.push(lv));
        }
        self.lines = lines;
    }
}

/// The position of the first record whose message has no place in the log.
pub fn first_unfit_record(records: &Vec<PlayerRecord>) -> (r: Option<usize>)
    ensures
        r is None <==> records_fit(record_views(records@)),
        r matches Some(k) ==> {
            &&& k < records.len()
            &&& is_noted(records@[k as int]@)
            &&& records@[k as int].id->0 >= MAX_PLAYERS
            &&& records_fit(record_views(records@).take(k as int))
        },
{
    let ghost views = record_views(records@);
    let n = records.len();
    for i in 0..n
        invariant
            n == records.len(),
            views == record_views(records@),
            records_fit(views.take(i as int)),
    {
        let rec = &records[i];
        proof {
            assert(views[i as int] == rec@);
        }
        if !rec.corrupt && !rec.message.as_str().is_empty() {
            match rec.id {
                Some(id) => {
                    if id >= MAX_PLAYERS {
                        proof {
                            assert(!(is_noted(views[i as int]) ==> views[i as int].id->0 < MAX_PLAYERS));
                        }
                        return Some(i);
                    }
                },
                None => {},
            }
        }
        proof {
            assert forall|j: int| 0 <= j < i + 1 && is_noted(#[trigger] views.take(i + 1)[j]) implies views.take(
                i + 1,
            )[j].id->0 < MAX_PLAYERS by {
                if j < i {
                    assert(views.take(i + 1)[j] == views.take(i as int)[j]);
                }
            }
        }
    }
    proof {
        assert(views.take(n as int) =~= views);
    }
    None
}

/// Whether every player entry of the roster has a place in the log.
pub fn roster_fits(data: &str) -> (r: bool)
    ensures
        r == roster_fits_log(data@),
{
    let records = parse_roster(data);
    proof {
        lemma_roster_fits_log(data@);
    }
    first_unfit_record(&records).is_none()
}

/// Reads the roster in `data` and notes its messages in the chat log.
pub fn get_players_from_string(data: String, chat: &mut ChatLog) -> (r: Vec<PlayerRecord>)
    requires
        roster_fits_log(data@),
    ensures
        final(chat)@ == absorb_spec(old(chat)@, roster_spec(data@)),
        final(chat)@.last.len() == MAX_PLAYERS,
        record_views(r@) == roster_spec(data@),
{
    let records = parse_roster(data.as_str());
    proof {
        lemma_roster_fits_log(data@);
    }
    chat.absorb(&records);
    records
}

/// What became of the bytes a client received from the server.
#[derive(Debug)]
pub enum ServerUpdate {
    /// The roster, read from the text before the first `'~'`.
    Roster(Vec<PlayerRecord>),
    /// The bytes are not UTF-8; the previous roster stands.
    Undecodable,
}

/// Why the bytes a client received cannot be read.
#[derive(Debug)]
pub enum ServerFault {
    /// The text holds no `'~'`.
    Unterminated,
    /// The roster (before the first `'~'`) reads as `records`, and the message
    /// of `records[at]` comes from a player id that has no place in the log.
    UnknownPlayer { records: Vec<PlayerRecord>, at: usize },
}

/// Tells why the bytes the server sent cannot be read, if they cannot.
pub fn server_update_fault(data: &[u8]) -> (r: Option<ServerFault>)
    ensures
        r is None <==> server_text_fits(data@),
        r matches Some(ServerFault::Unterminated) ==> valid_utf8(data@) && find_char(decode_utf8(data@), '~') is None,
        r matches Some(ServerFault::UnknownPlayer { records, at }) ==> {
            let t = decode_utf8(data@);
            &&& valid_utf8(data@)
            &&& find_char(t, '~') is Some
            &&& record_views(records@) == roster_spec(t.take(find_char(t, '~')->0))
            &&& at < records.len()
            &&& is_noted(records@[at as int]@)
            &&& records@[at as int].id->0 >= MAX_PLAYERS
            &&& records_fit(record_views(records@).take(at as int))
        },
{
    match utf8_text(data) {
        None => None,
        Some(text) => {
            let chars = chars_of(text);
            match find_char_in(&chars, '~') {
                None => Some(ServerFault::Unterminated),
                Some(k) => {
                    let roster = string_of_range(&chars, 0, k);
                    proof {
                        assert(chars@.subrange(0, k as int) =~= chars@.take(k as int));
                        lemma_roster_fits_log(roster@);
                    }
                    let records = parse_roster(roster.as_str());
                    match first_unfit_record(&records) {
                        None => None,
                        Some(at) => Some(ServerFault::UnknownPlayer { records, at }),
                    }
                },
            }
        },
    }
}

/// Reads the bytes the server sent: the roster before the first `'~'` is
/// read and its messages are noted in the chat log.
pub fn read_server_update(data: &[u8], chat: &mut ChatLog) -> (r: ServerUpdate)
    requires
        server_text_fits(data@),
    ensures
        !valid_utf8(data@) ==> r is Undecodable && final(chat)@ == old(chat)@,
        valid_utf8(data@) ==> ({
            let t = decode_utf8(data@);
            let roster = t.take(find_char(t, '~')->0);
            &&& final(chat)@ == absorb_spec(old(chat)@, roster_spec(roster))
            &&& r matches ServerUpdate::Roster(records) && record_views(records@) == roster_spec(roster)
        }),
        final(chat)@.last.len() == MAX_PLAYERS,
{
    proof {
        use_type_invariant(&*chat);
    }
    match utf8_text(data) {
        None => ServerUpdate::Undecodable,
        Some(text) => {
            let chars = chars_of(text);
            match find_char_in(&chars, '~') {
                // `server_text_fits` leaves no such text.
                None => ServerUpdate::Undecodable,
                Some(k) => {
                    let roster = string_of_range(&chars, 0, k);
                    proof {
                        assert(chars@.subrange(0, k as int) =~= chars@.take(k as int));
                    }
                    ServerUpdate::Roster(get_players_from_string(roster, chat))
                },
            }
        },
    }
}

/// The keys of one frame that the chat box reads.
#[derive(Debug, Clone, Default)]
pub struct ChatKeys {
    /// `T` was released: the chat box opens.
    pub t_released: bool,
    /// Text typed during the frame.
    pub text: Option<String>,
    /// `Backspace` was released: the last typed character goes.
    pub backspace_released: bool,
    /// `Escape` is held: the chat box closes.
    pub escape_down: bool,
    /// `Enter` was released: the typed line is sent.
    pub enter_released: bool,
}

/// The keys of a frame as values.
pub struct ChatKeysView {
    pub t_released: bool,
    pub text: Option<Seq<char>>,
    pub backspace_released: bool,
    pub escape_down: bool,
    pub enter_released: bool,
}

impl View for ChatKeys {
    type V = ChatKeysView;

    open spec fn view(&self) -> ChatKeysView {
        ChatKeysView {
            t_released: self.t_released,
            text: match self.text {
                Some(s) => Some(s@),
                None => None,
            },
            backspace_released: self.backspace_released,
            escape_down: self.escape_down,
            enter_released: self.enter_released,
        }
    }
}

/// The chat box as values: whether it is open, and the line being typed.
pub struct ChatBoxView {
    pub chat_mode: bool,
    pub draft: Seq<char>,
}

/// One frame of the chat box. When it is (or becomes) open, the typed text is
/// appended, `Backspace` drops the last character, `Escape` closes it, and
/// `Enter` sends the line and empties it. The second component is the line sent.
pub open spec fn chat_step_spec(b: ChatBoxView, k: ChatKeysView) -> (ChatBoxView, Option<Seq<char>>) {
    if !(b.chat_mode || k.t_released) {
        (b, None)
    } else {
        let typed = match k.text {
            Some(s) => b.draft + s,
            None => b.draft,
        };
        let edited = if k.backspace_released && typed.len() > 0 {
            typed.drop_last()
        } else {
            typed
        };
        if k.enter_released {
            (ChatBoxView { chat_mode: !k.escape_down, draft: Seq::empty() }, Some(edited))
        } else {
            (ChatBoxView { chat_mode: !k.escape_down, draft: edited }, None)
        }
    }
}

/// The message a sent line becomes: the line in single quotes.
pub open spec fn quoted(s: Seq<char>) -> Seq<char> {
    seq!['\''] + s + seq!['\'']
}

/// The chat box of the local player.
pub struct ChatBox {
    chat_mode: bool,
    draft: String,
}

impl View for ChatBox {
    type V = ChatBoxView;

    closed spec fn view(&self) -> ChatBoxView {
        ChatBoxView { chat_mode: self.chat_mode, draft: self.draft@ }
    }
}

impl ChatBox {
    /// A closed chat box with nothing typed.
    pub fn new() -> (r: ChatBox)
        ensures
            r@ == (ChatBoxView { chat_mode: false, draft: Seq::empty() }),
    {
        ChatBox { chat_mode: false, draft: String::new() }
    }

    /// Whether the chat box is open.
    pub fn is_open(&self) -> (r: bool)
        ensures
            r == self@.chat_mode,
    {
        self.chat_mode
    }

    /// The line being typed.
    pub fn draft(&self) -> (r: String)
        ensures
            r@ == self@.draft,
    {
        self.draft.clone()
    }

    /// One frame of the chat box. A sent line goes to the log as
    /// `"[name]: line"`, and comes back quoted, as the message to report.
    pub fn update(&mut self, keys: &ChatKeys, name: &str, log: &mut ChatLog) -> (sent: Option<String>)
        ensures
            final(self)@ == chat_step_spec(old(self)@, keys@).0,
            chat_step_spec(old(self)@, keys@).1 is None ==> sent is None && final(log)@ == old(log)@,
            chat_step_spec(old(self)@, keys@).1 matches Some(line) ==> {
                &&& sent matches Some(m) && m@ == quoted(line)
                &&& final(log)@ == (ChatLogView {
                    last: old(log)@.last,
                    lines: old(log)@.lines.push(chat_line(name@, line)),
                })
            },
    {
        if keys.t_released {
            self.chat_mode = true;
        }
        if !self.chat_mode {
            return None;
        }
        match &keys.text {
            Some(s) => {
                self.draft.append(s.as_str());
            },
            None => {},
        }
        if keys.backspace_released {
            pop_char(&mut self.draft);
        }
        if keys.escape_down {
            self.chat_mode = false;
        }
        if keys.enter_released {
            let mut line = String::from_str("[");
            line.append(name);
            line.append("]: ");
            line.append(self.draft.as_str());
            let mut message = String::from_str("'");
            message.append(self.draft.as_str());
            message.append("'");
            proof {
                reveal_strlit("[");
                reveal_strlit("]: ");
                reveal_strlit("'");
                assert(line@ =~= chat_line(name@, self.draft@));
                assert(message@ =~= quoted(self.draft@));
            }
            log.push_local(line);
            self.draft = String::new();
            Some(message)
        } else {
            None
        }
    }
}

} // verus!
