//! The decisions of the chat server's connection threads: which chat lines
//! are commands, and what each message passed between the threads does to
//! the map of users.
use crate::structs::{Pass, PassFunction, UserMap};
use vstd::prelude::*;

verus! {

/// `s` with every leading copy of `pattern` removed, one after another.
pub open spec fn strip_prefixes(s: Seq<char>, pattern: Seq<char>) -> Seq<char>
    decreases s.len(),
{
    if pattern.len() > 0 && pattern.is_prefix_of(s) {
        strip_prefixes(s.skip(pattern.len() as int), pattern)
    } else {
        s
    }
}

/// Calls `str::starts_with` with a string pattern, which its documentation
/// describes as telling whether the pattern matches a prefix of the string;
/// the contract claims exactly that, over characters.
#[verifier::external_body]
fn str_starts_with(s: &str, prefix: &str) -> (b: bool)
    ensures
        b == prefix@.is_prefix_of(s@),
{
    s.starts_with(prefix)
}

/// Calls `str::trim_start_matches` with a non-empty string pattern, which its
/// documentation describes as removing all prefixes that match the pattern,
/// repeatedly; the contract claims exactly that, over characters.
#[verifier::external_body]
fn str_trim_start_matches<'a>(s: &'a str, pattern: &str) -> (r: &'a str)
    requires
        pattern@.len() > 0,
    ensures
        r@ == strip_prefixes(s@, pattern@),
{
    s.trim_start_matches(pattern)
}

/// A chat line asks for a rename when it begins with `!rename`.
pub open spec fn is_rename_command(line: Seq<char>) -> bool {
    "!rename"@.is_prefix_of(line)
}

/// Law: a chat line is a rename command exactly when it begins with
/// `!rename`, whatever else it holds and however long it is.
pub proof fn lemma_rename_command_is_prefix(line: Seq<char>)
    ensures
        is_rename_command(line) <==> "!rename"@.is_prefix_of(line),
{
}

/// Law: stripping a non-empty pattern removes one leading copy after the
/// other: a string that does not begin with the pattern stays as it is, and
/// one that begins with it loses that copy and is then stripped again.
pub proof fn lemma_strip_prefixes(s: Seq<char>, pattern: Seq<char>)
    requires
        pattern.len() > 0,
    ensures
        !pattern.is_prefix_of(s) ==> strip_prefixes(s, pattern) == s,
        strip_prefixes(pattern + s, pattern) == strip_prefixes(s, pattern),
        !pattern.is_prefix_of(strip_prefixes(s, pattern)),
    decreases s.len(),
{
    assert((pattern + s).skip(pattern.len() as int) =~= s);
    assert(pattern.is_prefix_of(pattern + s)) by {
        assert((pattern + s).subrange(0, pattern.len() as int) =~= pattern);
    }
    if pattern.is_prefix_of(s) {
        lemma_strip_prefixes(s.skip(pattern.len() as int), pattern);
    }
}

/// Law: the line `!rename ` followed by a name that does not itself begin
/// with `!rename ` is a rename command to exactly that name.
pub proof fn lemma_rename_line(name: Seq<char>)
    requires
        !"!rename "@.is_prefix_of(name),
    ensures
        is_rename_command("!rename "@ + name),
        strip_prefixes("!rename "@ + name, "!rename "@) == name,
{
    reveal_strlit("!rename ");
    reveal_strlit("!rename");
    lemma_strip_prefixes(name, "!rename "@);
    assert("!rename"@.is_prefix_of("!rename "@ + name)) by {
        assert(("!rename "@ + name).subrange(0, 7) =~= "!rename"@);
    }
}

/// The command that a chat line holds, if any: a line that begins with
/// `!rename` asks to rename the user to the line without its leading copies
/// of `!rename ` (the word and a space).
pub fn parse_command(line: &String) -> (p: Option<Pass>)
    ensures
        is_rename_command(line@) ==> (p matches Some(Pass::Function(PassFunction::Rename(name)))
            && name@ == strip_prefixes(line@, "!rename "@)),
        !is_rename_command(line@) ==> p is None,
        "!rename"@.is_prefix_of(line@) ==> (p matches Some(
            Pass::Function(PassFunction::Rename(name)),
        ) && name@ == strip_prefixes(line@, "!rename "@)),
        !"!rename"@.is_prefix_of(line@) ==> p is None,
{
    let text = line.as_str();
    proof {
        reveal_strlit("!");
        reveal_strlit("!rename");
        if "!rename"@.is_prefix_of(line@) {
            assert(line@[0] == "!rename"@[0]);
        }
    }
    if str_starts_with(text, "!") {
        if str_starts_with(text, "!rename") {
            let pattern = "!rename ";
            proof {
                reveal_strlit("!rename ");
            }
            let new_name: String = str_trim_start_matches(text, pattern).to_owned();
            return Some(Pass::Function(PassFunction::Rename(new_name)));
        }
    }
    None
}

/// The user map and the user's name after renaming `username` to `new_name`:
/// where `username` is in the map, its entry moves to `new_name` and the
/// user takes the new name; otherwise nothing changes.
pub open spec fn renamed<V>(map: Map<Seq<char>, V>, username: Seq<char>, new_name: Seq<char>) -> (
    Map<Seq<char>, V>,
    Seq<char>,
) {
    if map.contains_key(username) {
        (map.remove(username).insert(new_name, map[username]), new_name)
    } else {
        (map, username)
    }
}

/// Law: a rename moves the user's own entry and no other. Where `username` is
/// in the map, its value is afterwards stored under `new_name`, `username` is
/// gone (unless it is `new_name`), and the user is called `new_name`; where it
/// is not, map and name stay. Every other name keeps its entry and value.
pub proof fn lemma_rename_moves_one_entry<V>(
    map: Map<Seq<char>, V>,
    username: Seq<char>,
    new_name: Seq<char>,
)
    ensures
        ({
            let (m, u) = renamed(map, username, new_name);
            &&& forall|k: Seq<char>|
                k != username && k != new_name ==> (#[trigger] m.contains_key(k)
                    <==> map.contains_key(k)) && (map.contains_key(k) ==> m[k] == map[k])
            &&& map.contains_key(username) ==> {
                &&& m.contains_key(new_name)
                &&& m[new_name] == map[username]
                &&& u == new_name
                &&& username != new_name ==> !m.contains_key(username)
            }
            &&& !map.contains_key(username) ==> m == map && u == username
        }),
{
}

/// Renames the connection's user from `username` to `new_name` in the user
/// map, and asks for nothing more to be done.
pub fn rename_user<V>(new_name: String, user_map: &mut UserMap<V>, username: &mut String) -> (p:
    Pass)
    ensures
        (final(user_map)@, final(username)@) == renamed(
            old(user_map)@,
            old(username)@,
            new_name@,
        ),
        forall|k: Seq<char>|
            k != old(username)@ && k != new_name@ ==> (#[trigger] final(user_map)@.contains_key(k)
                <==> old(user_map)@.contains_key(k)) && (old(user_map)@.contains_key(k)
                ==> final(user_map)@[k] == old(user_map)@[k]),
        old(user_map)@.contains_key(old(username)@) ==> final(user_map)@.contains_key(new_name@)
            && final(user_map)@[new_name@] == old(user_map)@[old(username)@] && final(username)@
            == new_name@ && (old(username)@ != new_name@ ==> !final(user_map)@.contains_key(
            old(username)@)),
        !old(user_map)@.contains_key(old(username)@) ==> final(user_map)@ == old(user_map)@
            && final(username)@ == old(username)@,
        p is NOOP,
{
    proof {
        lemma_rename_moves_one_entry(old(user_map)@, old(username)@, new_name@);
    }
    match user_map.remove(username) {
        Some(user_object) => {
            user_map.insert(new_name.clone(), user_object);
            *username = new_name;
        },
        None => {
            assert(user_map@ =~= old(user_map)@);
        },
    }
    Pass::NOOP
}

/// Whether a connection's sending thread goes on after a message.
#[derive(Clone, Copy, Debug, PartialEq, Eq, Structural)]
pub enum LoopControl {
    Continue,
    Stop,
}

/// What a connection's sending thread does with a message from its receiving
/// thread: nothing for `NOOP`; for `CloseConnection` it removes the user
/// from the map and stops; a rename renames the user.
pub fn handle_pass<V>(pass: Pass, user_map: &mut UserMap<V>, username: &mut String) -> (c:
    LoopControl)
    ensures
        match pass {
            Pass::NOOP => c == LoopControl::Continue && final(user_map)@ == old(user_map)@
                && final(username)@ == old(username)@,
            Pass::CloseConnection => c == LoopControl::Stop && final(user_map)@ == old(
                user_map,
            )@.remove(old(username)@) && final(username)@ == old(username)@,
            Pass::Function(PassFunction::Rename(new_name)) => c == LoopControl::Continue && (
            final(user_map)@, final(username)@) == renamed(
                old(user_map)@,
                old(username)@,
                new_name@,
            ),
        },
{
    match pass {
        Pass::NOOP => LoopControl::Continue,
        Pass::CloseConnection => {
            user_map.remove(username);
            LoopControl::Stop
        },
        Pass::Function(PassFunction::Rename(new_name)) => {
            rename_user(new_name, user_map, username);
            LoopControl::Continue
        },
    }
}

} // verus!
