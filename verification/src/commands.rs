//! The JSON commands a client queues for the game server, and the batch in
//! which a step's queue is sent.
use vstd::prelude::*;
use vstd::string::StringExecFns;
use crate::decimal::{decimal, push_unsigned};

verus! {

/// The texts of a queue of commands.
pub open spec fn texts(v: Seq<String>) -> Seq<Seq<char>> {
    v.map_values(|s: String| s@)
}

/// Asks for the entities around the player.
pub open spec fn get_entities_text() -> Seq<char> {
    "{\"commandName\": \"getEntities\"}"@
}

/// Enters the game.
pub open spec fn start_playing_text() -> Seq<char> {
    "{\"commandName\": \"startPlaying\"}"@
}

/// Tells the server where the client believes the player is.
pub open spec fn assert_pos_text() -> Seq<char> {
    "{\"commandName\":\"assertPos\", \"pos\":{\"x\":0,\"y\":0}}"@
}

/// Asks for the player's statistics.
pub open spec fn get_stats_text() -> Seq<char> {
    "{\"commandName\":\"getStats\"}"@
}

/// Asks for the tiles around the player.
pub open spec fn get_tiles_text() -> Seq<char> {
    "{\"commandName\":\"getTiles\",\"size\":31}"@
}

/// Says `text` in the chat, written into the command as it is.
pub open spec fn add_chat_message_text(text: Seq<char>) -> Seq<char> {
    "{\"commandName\":\"addChatMessage\",\"text\":\""@ + text + "\"}"@
}

/// Walks one tile in direction `dir`.
pub open spec fn walk_text(dir: u8) -> Seq<char> {
    "{\"commandName\":\"walk\",\"direction\":"@ + decimal(dir as nat) + "}"@
}

/// Digs out the tile next to the player in direction `dir`.
pub open spec fn remove_tile_text(dir: u8) -> Seq<char> {
    "{\"commandName\":\"removeTile\",\"direction\":"@ + decimal(dir as nat) + "}"@
}

/// The command sent to place a green tile in direction `dir`: a `removeTile`
/// command that also names tile 132.
pub open spec fn place_green_tile_text(dir: u8) -> Seq<char> {
    "{\"commandName\":\"removeTile\",\"direction\":"@ + decimal(dir as nat) + ",\"tile\":132}"@
}

/// The texts joined with commas between them.
pub open spec fn joined(t: Seq<Seq<char>>) -> Seq<char>
    decreases t.len(),
{
    if t.len() == 0 {
        Seq::empty()
    } else if t.len() == 1 {
        t[0]
    } else {
        joined(t.drop_last()) + seq![','] + t.last()
    }
}

/// Joining two nonempty lists of texts is joining each and putting one comma
/// between them: every text of both lists appears once per occurrence, in
/// order, equal neighbours included.
pub proof fn lemma_joined_concat(a: Seq<Seq<char>>, b: Seq<Seq<char>>)
    requires
        a.len() > 0,
        b.len() > 0,
    ensures
        joined(a + b) == joined(a) + seq![','] + joined(b),
    decreases b.len(),
{
    if b.len() == 1 {
        assert((a + b).drop_last() =~= a);
        assert((a + b).last() == b[0]);
    } else {
        assert((a + b).drop_last() =~= a + b.drop_last());
        assert((a + b).last() == b.last());
        lemma_joined_concat(a, b.drop_last());
        assert(joined(a + b) =~= joined(a) + seq![','] + joined(b));
    }
}

/// A single text joins to itself, and a text followed by others joins to it,
/// a comma, and the others joined.
pub proof fn lemma_joined_cons(u: Seq<char>, rest: Seq<Seq<char>>)
    ensures
        joined(seq![u]) == u,
        rest.len() > 0 ==> joined(seq![u] + rest) == u + seq![','] + joined(rest),
{
    if rest.len() > 0 {
        lemma_joined_concat(seq![u], rest);
    }
}

/// The message that carries a queue of commands: a JSON array of them.
pub open spec fn batch_text(t: Seq<Seq<char>>) -> Seq<char> {
    seq!['['] + joined(t) + seq![']']
}

proof fn lemma_texts_push(v: Seq<String>, s: String)
    ensures
        texts(v.push(s)) == texts(v).push(s@),
{
    assert(texts(v.push(s)) =~= texts(v).push(s@));
}

/// Queues a command with the given text.
fn push_command(command_vec: &mut Vec<String>, s: String)
    ensures
        texts(final(command_vec)@) == texts(old(command_vec)@).push(s@),
{
    proof {
        lemma_texts_push(old(command_vec)@, s);
    }
    command_vec.push(s);
}

/// Queues a request for the entities around the player.
pub fn get_entities(command_vec: &mut Vec<String>)
    ensures
        texts(final(command_vec)@) == texts(old(command_vec)@).push(get_entities_text()),
{
    push_command(command_vec, String::from_str("{\"commandName\": \"getEntities\"}"));
}

/// Queues the command that enters the game.
pub fn start_playing(command_vec: &mut Vec<String>)
    ensures
        texts(final(command_vec)@) == texts(old(command_vec)@).push(start_playing_text()),
{
    push_command(command_vec, String::from_str("{\"commandName\": \"startPlaying\"}"));
}

/// Queues a position check.
pub fn assert_pos(command_vec: &mut Vec<String>)
    ensures
        texts(final(command_vec)@) == texts(old(command_vec)@).push(assert_pos_text()),
{
    push_command(
        command_vec,
        String::from_str("{\"commandName\":\"assertPos\", \"pos\":{\"x\":0,\"y\":0}}"),
    );
}

/// Queues a request for the player's statistics.
pub fn get_stats(command_vec: &mut Vec<String>)
    ensures
        texts(final(command_vec)@) == texts(old(command_vec)@).push(get_stats_text()),
{
    push_command(command_vec, String::from_str("{\"commandName\":\"getStats\"}"));
}

/// Queues a request for the tiles around the player.
pub fn get_tiles(command_vec: &mut Vec<String>)
    ensures
        texts(final(command_vec)@) == texts(old(command_vec)@).push(get_tiles_text()),
{
    push_command(command_vec, String::from_str("{\"commandName\":\"getTiles\",\"size\":31}"));
}

/// Queues a chat message.
pub fn add_chat_message(command_vec: &mut Vec<String>, text: String)
    ensures
        texts(final(command_vec)@) == texts(old(command_vec)@).push(add_chat_message_text(text@)),
{
    let mut s = String::from_str("{\"commandName\":\"addChatMessage\",\"text\":\"");
    s.append(text.as_str());
    s.append("\"}");
    push_command(command_vec, s);
}

/// Queues one step in direction `dir`.
pub fn walk(command_vec: &mut Vec<String>, dir: u8)
    ensures
        texts(final(command_vec)@) == texts(old(command_vec)@).push(walk_text(dir)),
{
    let mut s = String::from_str("{\"commandName\":\"walk\",\"direction\":");
    push_unsigned(&mut s, dir as u64);
    s.append("}");
    push_command(command_vec, s);
}

/// Queues digging out the tile in direction `dir`.
pub fn remove_tile(command_vec: &mut Vec<String>, dir: u8)
    ensures
        texts(final(command_vec)@) == texts(old(command_vec)@).push(remove_tile_text(dir)),
{
    let mut s = String::from_str("{\"commandName\":\"removeTile\",\"direction\":");
    push_unsigned(&mut s, dir as u64);
    s.append("}");
    push_command(command_vec, s);
}

/// Queues placing a green tile in direction `dir`.
pub fn place_green_tile(command_vec: &mut Vec<String>, dir: u8)
    ensures
        texts(final(command_vec)@) == texts(old(command_vec)@).push(place_green_tile_text(dir)),
{
    let mut s = String::from_str("{\"commandName\":\"removeTile\",\"direction\":");
    push_unsigned(&mut s, dir as u64);
    s.append(",\"tile\":132}");
    push_command(command_vec, s);
}

/// Queues the commands a new connection starts with: enter the game, check
/// the position, ask for the tiles.
pub fn initial_commands(command_vec: &mut Vec<String>)
    ensures
        texts(final(command_vec)@) == texts(old(command_vec)@).push(start_playing_text()).push(
            assert_pos_text(),
        ).push(get_tiles_text()),
{
    start_playing(command_vec);
    assert_pos(command_vec);
    get_tiles(command_vec);
}

/// The message that sends a queue of commands: nothing for an empty queue,
/// otherwise a JSON array of the commands in order.
pub fn command_batch(command_vec: &Vec<String>) -> (r: Option<String>)
    ensures
        command_vec@.len() == 0 ==> r is None,
        command_vec@.len() > 0 ==> (r matches Some(s) && s@ == batch_text(texts(command_vec@))),
{
    let n = command_vec.len();
    if n == 0 {
        return None;
    }
    let ghost t = texts(command_vec@);
    let mut comstr = String::from_str("[");
    proof {
        reveal_strlit("[");
        assert(t.take(1).drop_last() =~= Seq::<Seq<char>>::empty());
    }
    comstr.append(command_vec[0].as_str());
    proof {
        assert(t.take(1) =~= seq![t[0]]);
    }
    for i in 1..n
        invariant
            n == command_vec@.len(),
            t == texts(command_vec@),
            comstr@ == seq!['['] + joined(t.take(i as int)),
    {
        proof {
            reveal_strlit(",");
        }
        comstr.append(",");
        comstr.append(command_vec[i].as_str());
        proof {
            assert(t.take(i as int + 1).drop_last() =~= t.take(i as int));
            assert(t.take(i as int + 1).last() == t[i as int]);
        }
    }
    proof {
        reveal_strlit("]");
        assert(t.take(n as int) =~= t);
    }
    comstr.append("]");
    Some(comstr)
}

} // verus!
