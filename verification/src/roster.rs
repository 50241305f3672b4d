//! The roster that the server relays to a client: entries separated by
//! `';'`, each a list of fields separated by `':'`.

use vstd::prelude::*;
use vstd::utf8::is_ascii_chars;

use crate::text::{
    char_is_numeric, chars_of, is_digit, find_char, find_char_in, lemma_find_char_push,
    lemma_split_on_len, numeric_char, parse_usize, parse_usize_spec, push_char, split_chars,
    split_on, trim_chars, trim_spec,
};

verus! {

/// Name shown for a player whose entry carries no name.
pub open spec fn unknown_name() -> Seq<char> {
    seq!['[', 'U', 'n', 'k', 'n', 'o', 'w', 'n', ' ', 'U', 's', 'e', 'r', ']']
}

/// A character that may belong to a coordinate, given whether it is
/// numeric: numeric, `'.'` or `'-'` (the `','` between the coordinates never is).
pub open spec fn coordinate_char(c: char, numeric: bool) -> bool {
    c != ',' && (numeric || c == '.' || c == '-')
}

/// The coordinate characters of `s`, in order; `numeric[i]` tells whether `s[i]` is numeric.
pub open spec fn coordinate_chars(s: Seq<char>, numeric: Seq<bool>) -> Seq<char>
    decreases s.len(),
{
    if s.len() == 0 {
        Seq::empty()
    } else if coordinate_char(s.last(), numeric[s.len() - 1]) {
        coordinate_chars(s.drop_last(), numeric.drop_last()).push(s.last())
    } else {
        coordinate_chars(s.drop_last(), numeric.drop_last())
    }
}

/// The texts of the two coordinates of a position field, given which
/// characters are numeric: the coordinate characters before the first `','`,
/// and those after it.
pub open spec fn position_texts_with(s: Seq<char>, numeric: Seq<bool>) -> (Seq<char>, Seq<char>) {
    match find_char(s, ',') {
        Some(k) => (
            coordinate_chars(s.take(k), numeric.take(k)),
            coordinate_chars(s.skip(k + 1), numeric.skip(k + 1)),
        ),
        None => (coordinate_chars(s, numeric), Seq::empty()),
    }
}

/// Which characters of `s` are numeric.
pub open spec fn numeric_flags(s: Seq<char>) -> Seq<bool> {
    Seq::new(s.len(), |i: int| numeric_char(s[i]))
}

/// Which characters of `s` are the decimal digits `0`..`9`; for ASCII text
/// these are exactly its numeric characters.
pub open spec fn digit_flags(s: Seq<char>) -> Seq<bool> {
    Seq::new(s.len(), |i: int| is_digit(s[i]))
}

/// The texts of the two coordinates of a position field.
pub open spec fn position_texts_spec(s: Seq<char>) -> (Seq<char>, Seq<char>) {
    position_texts_with(s, numeric_flags(s))
}

/// A bullet field as text.
#[derive(Debug, Clone)]
pub enum BulletText {
    /// The entry has no bullet field.
    Absent,
    /// The bullet field does not split into exactly three parts at `','`.
    Malformed,
    /// The texts of x, y and direction.
    Fields(String, String, String),
}

/// A bullet field as values.
pub enum BulletView {
    Absent,
    Malformed,
    Fields(Seq<char>, Seq<char>, Seq<char>),
}

impl View for BulletText {
    type V = BulletView;

    open spec fn view(&self) -> BulletView {
        match self {
            BulletText::Absent => BulletView::Absent,
            BulletText::Malformed => BulletView::Malformed,
            BulletText::Fields(x, y, d) => BulletView::Fields(x@, y@, d@),
        }
    }
}

/// The parts of a bullet field: it must split into exactly three at `','`.
pub open spec fn bullet_fields_spec(s: Seq<char>) -> BulletView {
    let parts = split_on(s, ',');
    if parts.len() == 3 {
        BulletView::Fields(parts[0], parts[1], parts[2])
    } else {
        BulletView::Malformed
    }
}

/// One player's entry of the roster, its numbers still as text.
#[derive(Debug, Clone)]
pub struct PlayerRecord {
    /// The player's id, when the first field is a decimal number.
    pub id: Option<usize>,
    /// The second field, or `"[Unknown User]"` when there is none.
    pub name: String,
    /// The x and y texts of the third field, when there is one.
    pub position: Option<(String, String)>,
    /// The fourth field.
    pub bullet: BulletText,
    /// The fifth field, or the empty string.
    pub message: String,
    /// The entry has more than five fields.
    pub corrupt: bool,
}

/// One player's entry as values.
pub struct PlayerRecordView {
    pub id: Option<usize>,
    pub name: Seq<char>,
    pub position: Option<(Seq<char>, Seq<char>)>,
    pub bullet: BulletView,
    pub message: Seq<char>,
    pub corrupt: bool,
}

impl View for PlayerRecord {
    type V = PlayerRecordView;

    open spec fn view(&self) -> PlayerRecordView {
        PlayerRecordView {
            id: self.id,
            name: self.name@,
            position: match self.position {
                Some((x, y)) => Some((x@, y@)),
                None => None,
            },
            bullet: self.bullet@,
            message: self.message@,
            corrupt: self.corrupt,
        }
    }
}

/// The values of a sequence of records.
pub open spec fn record_views(v: Seq<PlayerRecord>) -> Seq<PlayerRecordView> {
    v.map_values(|r: PlayerRecord| r@)
}

/// What an entry says, field by field.
pub open spec fn record_spec(entry: Seq<char>) -> PlayerRecordView {
    let f = split_on(entry, ':');
    PlayerRecordView {
        id: parse_usize_spec(f[0]),
        name: if f.len() > 1 { f[1] } else { unknown_name() },
        position: if f.len() > 2 { Some(position_texts_spec(trim_spec(f[2]))) } else { None },
        bullet: if f.len() > 3 { bullet_fields_spec(trim_spec(f[3])) } else { BulletView::Absent },
        message: if f.len() > 4 { f[4] } else { Seq::empty() },
        corrupt: f.len() > 5,
    }
}

/// An entry names an active player: it is not empty, holds no `'|'`, and
/// is not the empty-spot marker `()`.
pub open spec fn is_player_entry(e: Seq<char>) -> bool {
    e.len() > 0 && find_char(e, '|') is None && e != empty_spot()
}

/// The entry that marks an empty player spot.
pub open spec fn empty_spot() -> Seq<char> {
    seq!['(', ')']
}

/// The player entries among the pieces, in order.
pub open spec fn player_entries(pieces: Seq<Seq<char>>) -> Seq<Seq<char>>
    decreases pieces.len(),
{
    if pieces.len() == 0 {
        Seq::empty()
    } else if is_player_entry(pieces.last()) {
        player_entries(pieces.drop_last()).push(pieces.last())
    } else {
        player_entries(pieces.drop_last())
    }
}

/// The records of a roster: one per player entry among its `';'`-separated pieces.
pub open spec fn roster_spec(data: Seq<char>) -> Seq<PlayerRecordView> {
    player_entries(split_on(data, ';')).map_values(|e: Seq<char>| record_spec(e))
}

} // verus!

verus! {

/// The x and y texts of a position field, given which characters are
/// numeric: the coordinate characters before the first `','` and after it.
pub fn position_texts_with_flags(v: &Vec<char>, numeric: &Vec<bool>) -> (r: (String, String))
    requires
        numeric.len() == v.len(),
    ensures
        (r.0@, r.1@) == position_texts_with(v@, numeric@),
{
    let n = v.len();
    let mut x = String::new();
    let mut y = String::new();
    let mut second = false;
    for i in 0..n
        invariant
            n == v.len() == numeric.len(),
            match find_char(v@.take(i as int), ',') {
                Some(k) => second && 0 <= k < i && x@ == coordinate_chars(v@.take(k), numeric@.take(k))
                    && y@ == coordinate_chars(
                    v@.subrange(k + 1, i as int),
                    numeric@.subrange(k + 1, i as int),
                ),
                None => !second && x@ == coordinate_chars(v@.take(i as int), numeric@.take(i as int))
                    && y@ == Seq::<char>::empty(),
            },
    {
        let c = v[i];
        let ghost s = v@.take(i as int);
        proof {
            assert(v@.take(i + 1) =~= s.push(c));
            lemma_find_char_push(s, ',', c);
            match find_char(s, ',') {
                Some(k) => {
                    assert(v@.take(i + 1).take(k) =~= v@.take(k));
                    assert(v@.subrange(k + 1, i + 1).drop_last() =~= v@.subrange(k + 1, i as int));
                    assert(numeric@.subrange(k + 1, i + 1).drop_last() =~= numeric@.subrange(
                        k + 1,
                        i as int,
                    ));
                    assert(v@.subrange(k + 1, i + 1).last() == c);
                    assert(numeric@.subrange(k + 1, i + 1)[i - k - 1] == numeric@[i as int]);
                },
                None => {
                    assert(v@.take(i + 1).drop_last() =~= s);
                    assert(numeric@.take(i + 1).drop_last() =~= numeric@.take(i as int));
                    assert(v@.take(i + 1).last() == c);
                    assert(numeric@.take(i + 1)[i as int] == numeric@[i as int]);
                    assert(v@.take(i + 1).take(i as int) =~= s);
                    assert(v@.subrange(i + 1, i + 1) =~= Seq::<char>::empty());
                },
            }
        }
        if c == ',' {
            second = true;
        } else if numeric[i] || c == '.' || c == '-' {
            if second {
                push_char(&mut y, c);
            } else {
                push_char(&mut x, c);
            }
        }
    }
    proof {
        assert(v@.take(n as int) =~= v@);
        assert(numeric@.take(n as int) =~= numeric@);
        match find_char(v@, ',') {
            Some(k) => {
                assert(v@.subrange(k + 1, n as int) =~= v@.skip(k + 1));
                assert(numeric@.subrange(k + 1, n as int) =~= numeric@.skip(k + 1));
            },
            None => {},
        }
    }
    (x, y)
}

/// The x and y texts of a position field (the character filter of the
/// position reader), each character tested with `char::is_numeric`.
pub fn position_texts(data: &str) -> (r: (String, String))
    ensures
        (r.0@, r.1@) == position_texts_spec(data@),
        forall|i: int|
            0 <= i < data@.len() && (data@[i] as u32) < 128 ==> (numeric_char(#[trigger] data@[i])
                <==> is_digit(data@[i])),
        is_ascii_chars(data@) ==> (r.0@, r.1@) == position_texts_with(data@, digit_flags(data@)),
{
    let v = chars_of(data);
    let n = v.len();
    let mut numeric: Vec<bool> = Vec::new();
    for i in 0..n
        invariant
            n == v.len(),
            v@ == data@,
            numeric@ == numeric_flags(v@).take(i as int),
            forall|j: int|
                0 <= j < i && (v@[j] as u32) < 128 ==> (numeric_char(#[trigger] v@[j]) <==> is_digit(
                    v@[j],
                )),
    {
        let b = char_is_numeric(v[i]);
        numeric.push(b);
        proof {
            assert(numeric@ =~= numeric_flags(v@).take(i + 1));
        }
    }
    proof {
        assert(numeric_flags(v@).take(n as int) =~= numeric_flags(v@));
        if is_ascii_chars(data@) {
            assert(numeric_flags(v@) =~= digit_flags(v@));
        }
    }
    position_texts_with_flags(&v, &numeric)
}

/// Splits a bullet field into its three texts; `Malformed` unless there are
/// exactly three `','`-separated parts.
pub fn bullet_fields(data: &str) -> (r: BulletText)
    ensures
        r@ == bullet_fields_spec(data@),
{
    let v = chars_of(data);
    let mut parts = split_chars(&v, ',');
    if parts.len() == 3 {
        let ghost pv = parts.deep_view();
        let d = parts.pop().unwrap();
        let y = parts.pop().unwrap();
        let x = parts.pop().unwrap();
        proof {
            assert(pv[0] == x@);
        }
        BulletText::Fields(x, y, d)
    } else {
        BulletText::Malformed
    }
}

/// Reads one roster entry field by field.
pub fn parse_record(entry: &str) -> (r: PlayerRecord)
    ensures
        r@ == record_spec(entry@),
{
    let v = chars_of(entry);
    let fields = split_chars(&v, ':');
    let ghost f = fields.deep_view();
    proof {
        lemma_split_on_len(v@, ':');
        assert(forall|i: int| 0 <= i < fields.len() ==> f[i] == #[trigger] fields@[i]@);
    }
    let n = fields.len();
    let id = parse_usize(&chars_of(fields[0].as_str()));
    let name = if n > 1 {
        fields[1].clone()
    } else {
        let unknown = String::from_str("[Unknown User]");
        proof {
            reveal_strlit("[Unknown User]");
            assert(unknown@ =~= unknown_name());
        }
        unknown
    };
    let position = if n > 2 {
        let trimmed = trim_chars(&chars_of(fields[2].as_str()));
        Some(position_texts(trimmed.as_str()))
    } else {
        None
    };
    let bullet = if n > 3 {
        let trimmed = trim_chars(&chars_of(fields[3].as_str()));
        bullet_fields(trimmed.as_str())
    } else {
        BulletText::Absent
    };
    let message = if n > 4 {
        fields[4].clone()
    } else {
        String::new()
    };
    PlayerRecord { id, name, position, bullet, message, corrupt: n > 5 }
}

/// Whether a roster piece is a player entry: not empty, free of `'|'`, and not `()`.
fn is_player_piece(piece: &str) -> (r: bool)
    ensures
        r == is_player_entry(piece@),
{
    let v = chars_of(piece);
    let is_spot = v.len() == 2 && v[0] == '(' && v[1] == ')';
    proof {
        if v@.len() == 2 && v@[0] == '(' && v@[1] == ')' {
            assert(v@ =~= empty_spot());
        }
    }
    v.len() > 0 && find_char_in(&v, '|').is_none() && !is_spot
}

/// Reads the roster: one record per player entry, in order.
pub fn parse_roster(data: &str) -> (r: Vec<PlayerRecord>)
    ensures
        record_views(r@) == roster_spec(data@),
{
    let v = chars_of(data);
    let pieces = split_chars(&v, ';');
    let ghost pv = pieces.deep_view();
    let n = pieces.len();
    let mut out: Vec<PlayerRecord> = Vec::new();
    for i in 0..n
        invariant
            n == pieces.len(),
            pv == pieces.deep_view(),
            pv == split_on(data@, ';'),
            record_views(out@) == player_entries(pv.take(i as int)).map_values(
                |e: Seq<char>| record_spec(e),
            ),
    {
        let ghost before = out@;
        proof {
            assert(pv.take(i + 1).drop_last() =~= pv.take(i as int));
            assert(pv.take(i + 1).last() == pieces@[i as int]@);
        }
        if is_player_piece(pieces[i].as_str()) {
            let rec = parse_record(pieces[i].as_str());
            out.push(rec);
            proof {
                let prev = player_entries(pv.take(i as int));
                assert(player_entries(pv.take(i + 1)) == prev.push(pieces@[i as int]@));
                assert(prev.push(pieces@[i as int]@).map_values(|e: Seq<char>| record_spec(e))
                    =~= prev.map_values(|e: Seq<char>| record_spec(e)).push(
                    record_spec(pieces@[i as int]@),
                ));
                assert(record_views(out@) =~= record_views(before).push(rec@));
            }
        } else {
            proof {
                assert(player_entries(pv.take(i + 1)) == player_entries(pv.take(i as int)));
            }
        }
    }
    proof {
        assert(pv.take(n as int) =~= pv);
    }
    out
}

} // verus!
