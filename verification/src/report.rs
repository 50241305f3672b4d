//! The report a client sends about its own player.

use vstd::prelude::*;

verus! {

/// The local player's state, its numbers already written as text.
#[derive(Debug, Clone)]
pub struct LocalPlayerDetails {
    pub name: String,
    /// x and y.
    pub position: [String; 2],
    /// x, y and direction of the bullet most recently fired.
    pub recent_bullet_position_and_direction: [String; 3],
    pub message: String,
}

/// The report: `name:x,y:bx,by,bd:message~ ` (a `'~'` and a space end it).
pub open spec fn report_spec(d: LocalPlayerDetails) -> Seq<char> {
    d.name@ + seq![':'] + d.position@[0]@ + seq![','] + d.position@[1]@ + seq![':']
        + d.recent_bullet_position_and_direction@[0]@ + seq![',']
        + d.recent_bullet_position_and_direction@[1]@ + seq![',']
        + d.recent_bullet_position_and_direction@[2]@ + seq![':'] + d.message@ + seq!['~', ' ']
}

/// Writes the report that is sent to the server.
pub fn get_string_from_local_details(local_player_details: LocalPlayerDetails) -> (r: String)
    ensures
        r@ == report_spec(local_player_details),
{
    let d = &local_player_details;
    let mut r = String::new();
    r.append(d.name.as_str());
    r.append(":");
    r.append(d.position[0].as_str());
    r.append(",");
    r.append(d.position[1].as_str());
    r.append(":");
    r.append(d.recent_bullet_position_and_direction[0].as_str());
    r.append(",");
    r.append(d.recent_bullet_position_and_direction[1].as_str());
    r.append(",");
    r.append(d.recent_bullet_position_and_direction[2].as_str());
    r.append(":");
    r.append(d.message.as_str());
    r.append("~ ");
    proof {
        reveal_strlit(":");
        reveal_strlit(",");
        reveal_strlit("~ ");
        assert(r@ =~= report_spec(local_player_details));
    }
    r
}

} // verus!
