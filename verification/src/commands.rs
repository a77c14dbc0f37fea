//! The chat commands of the core plugin: `kick` and `ban` for the admins
//! of a server, and `corehelp` for everyone.
//!
//! A plugin reads each callback the server sends; when it is a chat line
//! that starts with the command prefix of the server, the words after the
//! prefix are the command and its arguments. The plugin answers with
//! requests to the server, each tagged with the plugin's index.
use vstd::prelude::*;
use vstd::utf8::{decode_utf8, encode_utf8, encode_utf8_decode_utf8};
use crate::callback::{lemma_parse_no_line_feed, parse, parse_spec, utf8_views};
use crate::encoding::lemma_no_newline;
use crate::text::{
    chars_eq, chars_of, chars_starts_with, contains, join, join_strs, lacks, lemma_join_lacks,
    lemma_join_split, lemma_lacks_contains, lemma_split_after_prefix, lemma_split_front,
    lemma_split_lacks, lemma_split_len, lemma_split_whole, split, split_str, starts_with, views,
};
use crate::request::{
    cram, lemma_request_defined, minify, minify_request, no_line_breaks, xform, xform_defined,
    xform_spec, Param, Value,
};

verus! {

/// What a plugin knows of the server it serves.
#[derive(Clone)]
pub struct HostInfo {
    /// The text that starts a chat command.
    pub prefix: String,
    /// The logins of the admins.
    pub admins: Vec<String>,
}

/// A message between a plugin and the connection, tagged with the index of
/// the plugin.
pub struct Packet<T> {
    pub lim: u8,
    pub data: T,
}

/// The words of a chat command: the chat text (the third value of the
/// call) after the prefix, up to the next occurrence of the prefix, split
/// at spaces.
pub open spec fn split_args_spec(prefix: Seq<char>, message: Seq<Seq<char>>) -> Seq<Seq<char>> {
    split(split(message[2], prefix)[1], " "@)
}

/// The words of a chat command. The chat text is the third value of the
/// call; it must hold the prefix (any text holds the empty one).
pub fn splitArgs(prefix: &String, message: &Vec<String>) -> (res: Vec<String>)
    requires
        message@.len() > 2,
        prefix@.len() == 0 || contains(message@[2]@, prefix@),
    ensures
        views(res@) == split_args_spec(prefix@, views(message@)),
{
    let pieces = split_str(message[2].as_str(), prefix.as_str());
    proof {
        lemma_split_len(message@[2]@, prefix@);
        if prefix@.len() == 0 {
            assert(split(message@[2]@, prefix@).len() >= 2);
        }
        assert(views(message@)[2] == message@[2]@);
    }
    assert(pieces@[1]@ == views(pieces@)[1]);
    split_str(pieces[1].as_str(), " ")
}

/// The chat line that a plugin answers with text addressed to a login.
pub open spec fn chat_to(text: Seq<char>, login: Seq<char>) -> Seq<char> {
    minify("ChatSendToLogin"@, seq![Param::Str(text), Param::Str(login)])
}

/// The request that kicks a player, with a reason.
pub open spec fn kick_request(login: Seq<char>, reason: Seq<char>) -> Seq<char> {
    minify("Kick"@, seq![Param::Str(login), Param::Str(reason)])
}

/// The request that bans and blacklists a player, with a reason.
pub open spec fn ban_request(login: Seq<char>, reason: Seq<char>) -> Seq<char> {
    minify("BanAndBlackList"@, seq![Param::Str(login), Param::Str(reason), Param::Bool(true)])
}

/// The answer to a command that only admins may use.
pub open spec fn denied() -> Seq<char> {
    "You tried to use an admin-only command, but you have no permission."@
}

/// The lines of the help text.
pub open spec fn help_lines() -> Seq<Seq<char>> {
    seq![
        "Help for xrdCore:"@,
        "--ADMIN ONLY COMMANDS--"@,
        "kick: Kicks a player with a specified reason."@,
        "ban: Bans a player with a specified reason."@,
    ]
}

/// The method name of a chat callback.
pub open spec fn player_chat() -> Seq<char> {
    "TrackMania.PlayerChat"@
}

/// The minified requests that the core plugin sends in answer to a call
/// (the values of a callback followed by its method name). A call on which
/// the plugin stops (see `core_call_ok`) gets no request.
pub open spec fn core_requests(prefix: Seq<char>, admins: Seq<Seq<char>>, call: Seq<Seq<char>>) -> Seq<
    Seq<char>,
> {
    let values = call.drop_last();
    if call.len() < 4 || call.last() != player_chat() || !starts_with(values[2], prefix) {
        Seq::empty()
    } else {
        let argv = split_args_spec(prefix, values);
        let login = values[1];
        if argv[0] == "kick"@ {
            if admins.contains(login) {
                if argv.len() < 2 {
                    Seq::empty()
                } else {
                    seq![kick_request(argv[1], join(argv.subrange(2, argv.len() as int), " "@))]
                }
            } else {
                seq![chat_to(denied(), login)]
            }
        } else if argv[0] == "ban"@ {
            if admins.contains(login) {
                if argv.len() < 2 {
                    Seq::empty()
                } else {
                    seq![ban_request(argv[1], join(argv.subrange(2, argv.len() as int), " "@))]
                }
            } else {
                seq![chat_to(denied(), login)]
            }
        } else if argv[0] == "corehelp"@ {
            help_lines().map_values(|h: Seq<char>| chat_to(h, login))
        } else {
            Seq::empty()
        }
    }
}

/// The calls that the core plugin can answer: a chat callback has a login
/// and a text, and a `kick` or `ban` by an admin names a player.
pub open spec fn core_call_ok(prefix: Seq<char>, admins: Seq<Seq<char>>, call: Seq<Seq<char>>) -> bool {
    let values = call.drop_last();
    &&& call.len() >= 1
    &&& call.last() == player_chat() ==> values.len() >= 3
    &&& (call.last() == player_chat() && starts_with(values[2], prefix) && admins.contains(
        values[1],
    ) && (split_args_spec(prefix, values)[0] == "kick"@ || split_args_spec(prefix, values)[0]
        == "ban"@)) ==> split_args_spec(prefix, values).len() >= 2
}


/// Whether a login is one of the admins.
fn is_admin(admins: &Vec<String>, login: &String) -> (res: bool)
    ensures
        res == views(admins@).contains(login@),
{
    let mut k: usize = 0;
    while k < admins.len()
        invariant
            k <= admins@.len(),
            forall|j: int| 0 <= j < k ==> admins@[j]@ != login@,
        decreases admins@.len() - k,
    {
        if admins[k] == *login {
            assert(views(admins@)[k as int] == login@);
            return true;
        }
        k = k + 1;
    }
    proof {
        if views(admins@).contains(login@) {
            let j = choose|j: int| 0 <= j < views(admins@).len() && views(admins@)[j] == login@;
            assert(admins@[j]@ == login@);
        }
    }
    false
}

/// The packet that carries a minified request to the connection.
fn request_packet(index: u8, text: String) -> (res: Packet<Vec<u8>>)
    requires
        xform_defined(text@),
    ensures
        res.lim == index,
        res.data@ == encode_utf8(xform_spec(text@)),
{
    Packet { lim: index, data: cram(xform(text)) }
}

/// The packets of a list of minified requests.
pub open spec fn request_packets_match(res: Seq<Packet<Vec<u8>>>, index: u8, reqs: Seq<Seq<char>>) -> bool {
    &&& res.len() == reqs.len()
    &&& forall|k: int|
        0 <= k < res.len() ==> (#[trigger] res[k]).lim == index && res[k].data@ == encode_utf8(
            xform_spec(reqs[k]),
        )
}

/// The chat line addressed to a login, as a packet.
fn chat_packet(index: u8, text: &str, login: &String) -> (res: Packet<Vec<u8>>)
    requires
        xform_defined(chat_to(text@, login@)),
    ensures
        res.lim == index,
        res.data@ == encode_utf8(xform_spec(chat_to(text@, login@))),
{
    let params = vec![Value::Str(text.to_owned()), Value::Str(login.clone())];
    let req = minify_request("ChatSendToLogin", params.as_slice());
    assert(params@.map_values(|v: Value| v@) =~= seq![Param::Str(text@), Param::Str(login@)]);
    request_packet(index, req)
}

/// The core plugin's answer to a call (the values of a callback followed
/// by its method name): one packet per request, tagged with the plugin's
/// index.
pub fn respond(info: &HostInfo, index: u8, call: &Vec<String>) -> (res: Vec<Packet<Vec<u8>>>)
    requires
        core_call_ok(info.prefix@, views(info.admins@), views(call@)),
        forall|k: int|
            0 <= k < core_requests(info.prefix@, views(info.admins@), views(call@)).len()
                ==> xform_defined(
                #[trigger] core_requests(info.prefix@, views(info.admins@), views(call@))[k],
            ),
    ensures
        request_packets_match(
            res@,
            index,
            core_requests(info.prefix@, views(info.admins@), views(call@)),
        ),
{
    let ghost c = views(call@);
    let ghost reqs = core_requests(info.prefix@, views(info.admins@), c);
    let mut out: Vec<Packet<Vec<u8>>> = Vec::new();
    let n = call.len();
    assert(c.last() == call@[n - 1]@);
    let head = chars_of(call[n - 1].as_str());
    let chat = chars_of("TrackMania.PlayerChat");
    if !chars_eq(head.as_slice(), chat.as_slice()) {
        return out;
    }
    assert(c.drop_last()[2] == call@[2]@);
    assert(c.drop_last()[1] == call@[1]@);
    let text = chars_of(call[2].as_str());
    let prefix = chars_of(info.prefix.as_str());
    if !chars_starts_with(text.as_slice(), prefix.as_slice()) {
        return out;
    }
    proof {
        if prefix@.len() > 0 {
            assert(call@[2]@.subrange(0, prefix@.len() as int) == prefix@);
            assert(crate::text::occurs_at(call@[2]@, prefix@, 0));
        }
    }
    let argv = splitArgs(&info.prefix, call);
    let ghost words = split_args_spec(info.prefix@, c.drop_last());
    assert(views(call@).drop_last() =~= c.drop_last());
    assert(split_args_spec(info.prefix@, views(call@)) == words) by {
        assert(views(call@)[2] == c.drop_last()[2]);
    }
    proof {
        lemma_split_len(split(call@[2]@, info.prefix@)[1], " "@);
    }
    assert(argv@[0]@ == words[0]);
    let cmd = chars_of(argv[0].as_str());
    let login = &call[1];
    let kick = chars_of("kick");
    let ban = chars_of("ban");
    let help = chars_of("corehelp");
    if chars_eq(cmd.as_slice(), kick.as_slice()) || chars_eq(cmd.as_slice(), ban.as_slice()) {
        let is_kick = chars_eq(cmd.as_slice(), kick.as_slice());
        if is_admin(&info.admins, login) {
            assert(argv@[1]@ == words[1]);
            let rest = vstd::slice::slice_subrange(argv.as_slice(), 2, argv.len());
            let reason = join_strs(rest, " ");
            assert(views(rest@) =~= words.subrange(2, words.len() as int));
            let req = if is_kick {
                let params = vec![Value::Str(argv[1].clone()), Value::Str(reason)];
                assert(params@.map_values(|v: Value| v@) =~= seq![Param::Str(words[1]), Param::Str(reason@)]);
                minify_request("Kick", params.as_slice())
            } else {
                let params = vec![Value::Str(argv[1].clone()), Value::Str(reason), Value::Bool(true)];
                assert(params@.map_values(|v: Value| v@) =~= seq![
                    Param::Str(words[1]),
                    Param::Str(reason@),
                    Param::Bool(true),
                ]);
                minify_request("BanAndBlackList", params.as_slice())
            };
            assert(reqs[0] == req@);
            out.push(request_packet(index, req));
        } else {
            assert(reqs[0] == chat_to(denied(), login@));
            out.push(
                chat_packet(
                    index,
                    "You tried to use an admin-only command, but you have no permission.",
                    login,
                ),
            );
        }
    } else if chars_eq(cmd.as_slice(), help.as_slice()) {
        let lines = [
            "Help for xrdCore:",
            "--ADMIN ONLY COMMANDS--",
            "kick: Kicks a player with a specified reason.",
            "ban: Bans a player with a specified reason.",
        ];
        let mut k: usize = 0;
        while k < 4
            invariant
                k <= 4,
                reqs == help_lines().map_values(|h: Seq<char>| chat_to(h, login@)),
                forall|j: int| 0 <= j < 4 ==> lines@[j]@ == help_lines()[j],
                forall|j: int| 0 <= j < reqs.len() ==> xform_defined(#[trigger] reqs[j]),
                out@.len() == k,
                forall|j: int|
                    0 <= j < k ==> (#[trigger] out@[j]).lim == index && out@[j].data@
                        == encode_utf8(xform_spec(reqs[j])),
            decreases 4 - k,
        {
            assert(reqs[k as int] == chat_to(help_lines()[k as int], login@));
            out.push(chat_packet(index, lines[k], login));
            k = k + 1;
        }
    }
    out
}


/// The values and method name of a callback, as text.
pub open spec fn parse_text(message: Seq<char>) -> Seq<Seq<char>> {
    parse_spec(encode_utf8(message)).map_values(|b: Seq<u8>| decode_utf8(b))
}

proof fn lemma_no_break(s: Seq<char>)
    requires
        lacks(s, '\n'),
    ensures
        !contains(s, "\n"@),
{
    reveal_strlit("\n");
    assert("\n"@ =~= seq!['\n']);
    lemma_lacks_contains(s, '\n');
}

/// The requests that answer a call whose values hold no line break can all
/// be expanded.
proof fn lemma_core_requests_defined(prefix: Seq<char>, admins: Seq<Seq<char>>, call: Seq<Seq<char>>)
    requires
        core_call_ok(prefix, admins, call),
        forall|k: int| 0 <= k < call.len() ==> lacks(#[trigger] call[k], '\n'),
    ensures
        forall|k: int|
            0 <= k < core_requests(prefix, admins, call).len() ==> xform_defined(
                #[trigger] core_requests(prefix, admins, call)[k],
            ),
{
    let values = call.drop_last();
    let reqs = core_requests(prefix, admins, call);
    if call.last() == player_chat() && starts_with(values[2], prefix) {
        reveal_strlit("Kick");
        reveal_strlit("BanAndBlackList");
        reveal_strlit("ChatSendToLogin");
        reveal_strlit("You tried to use an admin-only command, but you have no permission.");
        reveal_strlit("Help for xrdCore:");
        reveal_strlit("--ADMIN ONLY COMMANDS--");
        reveal_strlit("kick: Kicks a player with a specified reason.");
        reveal_strlit("ban: Bans a player with a specified reason.");
        lemma_no_break("Kick"@);
        lemma_no_break("BanAndBlackList"@);
        lemma_no_break("ChatSendToLogin"@);
        let text = values[2];
        let login = values[1];
        assert(text == call[2] && login == call[1]);
        lemma_no_break(login);
        lemma_split_lacks(text, prefix, '\n');
        lemma_split_len(text, prefix);
        if prefix.len() > 0 {
            assert(text.subrange(0, prefix.len() as int) == prefix);
            assert(crate::text::occurs_at(text, prefix, 0));
        }
        let after = split(text, prefix)[1];
        assert(lacks(after, '\n'));
        let argv = split_args_spec(prefix, values);
        lemma_split_lacks(after, " "@, '\n');
        lemma_split_len(after, " "@);
        assert forall|j: int| 0 <= j < help_lines().len() implies lacks(#[trigger] help_lines()[j], '\n') by {
        }
        assert forall|t: Seq<char>| lacks(t, '\n') implies #[trigger] xform_defined(chat_to(t, login)) by {
            lemma_no_break(t);
            assert(no_line_breaks("ChatSendToLogin"@, seq![Param::Str(t), Param::Str(login)]));
            lemma_request_defined("ChatSendToLogin"@, seq![Param::Str(t), Param::Str(login)]);
        }
        assert(lacks(denied(), '\n'));
        if (argv[0] == "kick"@ || argv[0] == "ban"@) && admins.contains(login) {
            let rest = argv.subrange(2, argv.len() as int);
            assert forall|j: int| 0 <= j < rest.len() implies lacks(#[trigger] rest[j], '\n') by {
                assert(rest[j] == argv[j + 2]);
            }
            reveal_strlit(" ");
            lemma_join_lacks(rest, " "@, '\n');
            let reason = join(rest, " "@);
            lemma_no_break(argv[1]);
            lemma_no_break(reason);
            assert(no_line_breaks("Kick"@, seq![Param::Str(argv[1]), Param::Str(reason)]));
            lemma_request_defined("Kick"@, seq![Param::Str(argv[1]), Param::Str(reason)]);
            assert(no_line_breaks(
                "BanAndBlackList"@,
                seq![Param::Str(argv[1]), Param::Str(reason), Param::Bool(true)],
            ));
            lemma_request_defined(
                "BanAndBlackList"@,
                seq![Param::Str(argv[1]), Param::Str(reason), Param::Bool(true)],
            );
        }
        assert forall|k: int| 0 <= k < reqs.len() implies xform_defined(#[trigger] reqs[k]) by {
            if argv[0] == "corehelp"@ && argv[0] != "kick"@ && argv[0] != "ban"@ {
                assert(reqs[k] == chat_to(help_lines()[k], login));
            }
        }
    }
}

/// Reads a callback into the values and method name it holds, none of
/// which holds a line break.
fn read_call(data: String) -> (call: Vec<String>)
    ensures
        views(call@) == parse_text(data@),
        call@.len() >= 1,
        forall|k: int| 0 <= k < call@.len() ==> lacks(#[trigger] call@[k]@, '\n'),
{
    let ghost m = encode_utf8(data@);
    let ghost d = data@;
    let call = parse(data);
    proof {
        let p = parse_spec(m);
        assert(utf8_views(call@) == p);
        lemma_parse_no_line_feed(m);
        assert forall|k: int| 0 <= k < call@.len() implies #[trigger] call@[k]@ == decode_utf8(p[k]) && lacks(call@[k]@, '\n') by {
            assert(encode_utf8(call@[k]@) == p[k]);
            encode_utf8_decode_utf8(call@[k]@);
            lemma_lacks_contains(p[k], 10u8);
            lemma_no_newline(call@[k]@);
            reveal_strlit("\n");
            assert("\n"@ =~= seq!['\n']);
            lemma_lacks_contains(call@[k]@, '\n');
        }
        assert(views(call@) =~= parse_text(d));
    }
    call
}

/// Whether the core plugin can answer a callback: a chat callback has a
/// login and a text, and a `kick` or `ban` by an admin names a player.
pub fn can_answer(info: &HostInfo, data: &String) -> (res: bool)
    ensures
        res == core_call_ok(info.prefix@, views(info.admins@), parse_text(data@)),
{
    let call = read_call(data.clone());
    let ghost c = views(call@);
    let n = call.len();
    let head = chars_of(call[n - 1].as_str());
    let chat = chars_of("TrackMania.PlayerChat");
    assert(c.last() == call@[n - 1]@);
    if !chars_eq(head.as_slice(), chat.as_slice()) {
        return true;
    }
    if n < 4 {
        return false;
    }
    assert(c.drop_last()[2] == call@[2]@);
    assert(c.drop_last()[1] == call@[1]@);
    let text = chars_of(call[2].as_str());
    let prefix = chars_of(info.prefix.as_str());
    if !chars_starts_with(text.as_slice(), prefix.as_slice()) {
        return true;
    }
    if !is_admin(&info.admins, &call[1]) {
        return true;
    }
    proof {
        if prefix@.len() > 0 {
            assert(call@[2]@.subrange(0, prefix@.len() as int) == prefix@);
            assert(crate::text::occurs_at(call@[2]@, prefix@, 0));
        }
    }
    let argv = splitArgs(&info.prefix, &call);
    assert(split_args_spec(info.prefix@, views(call@)) == split_args_spec(info.prefix@, c.drop_last())) by {
        assert(views(call@)[2] == c.drop_last()[2]);
    }
    proof {
        lemma_split_len(split(call@[2]@, info.prefix@)[1], " "@);
    }
    let cmd = chars_of(argv[0].as_str());
    let kick = chars_of("kick");
    let ban = chars_of("ban");
    if chars_eq(cmd.as_slice(), kick.as_slice()) || chars_eq(cmd.as_slice(), ban.as_slice()) {
        return argv.len() >= 2;
    }
    true
}

/// One step of the core plugin: reads a callback and answers it, one
/// packet per request, tagged with the plugin's index.
pub fn handle_callback(info: &HostInfo, index: u8, data: String) -> (res: Vec<Packet<Vec<u8>>>)
    requires
        core_call_ok(info.prefix@, views(info.admins@), parse_text(data@)),
    ensures
        request_packets_match(
            res@,
            index,
            core_requests(info.prefix@, views(info.admins@), parse_text(data@)),
        ),
{
    let call = read_call(data);
    proof {
        lemma_core_requests_defined(info.prefix@, views(info.admins@), views(call@));
    }
    respond(info, index, &call)
}

/// A request is a chat line addressed to `login`.
pub open spec fn chat_line_to(req: Seq<char>, login: Seq<char>) -> bool {
    exists|t: Seq<char>| req == #[trigger] chat_to(t, login)
}

/// Only admins can kick or ban: whatever a player who is not an admin
/// sends, the core plugin answers with chat lines addressed to that player
/// and nothing else.
pub proof fn lemma_only_admins_kick_or_ban(prefix: Seq<char>, admins: Seq<Seq<char>>, call: Seq<Seq<char>>)
    requires
        !admins.contains(call[1]),
    ensures
        forall|k: int|
            0 <= k < core_requests(prefix, admins, call).len() ==> chat_line_to(
                #[trigger] core_requests(prefix, admins, call)[k],
                call[1],
            ),
{
    let values = call.drop_last();
    let reqs = core_requests(prefix, admins, call);
    assert forall|k: int| 0 <= k < reqs.len() implies chat_line_to(#[trigger] reqs[k], call[1]) by {
        if call.len() >= 4 && call.last() == player_chat() && starts_with(values[2], prefix) {
            assert(values[1] == call[1]);
            let argv = split_args_spec(prefix, values);
            if argv[0] == "kick"@ || argv[0] == "ban"@ {
                assert(reqs[k] == chat_to(denied(), call[1]));
            } else if argv[0] == "corehelp"@ {
                assert(reqs[k] == chat_to(help_lines()[k], call[1]));
            }
        }
    }
}


/// The words after a command word and its target: none, or a space and
/// the rest of the chat text.
pub open spec fn more_words(rest: Option<Seq<char>>) -> Seq<char> {
    match rest {
        Some(r) => " "@ + r,
        None => Seq::empty(),
    }
}

/// The text that `more_words` adds, without its leading space.
pub open spec fn words_text(rest: Option<Seq<char>>) -> Seq<char> {
    match rest {
        Some(r) => r,
        None => Seq::empty(),
    }
}

/// A chat text that is the prefix followed by text without the prefix
/// gives the words of that text.
proof fn lemma_chat_words(prefix: Seq<char>, call: Seq<Seq<char>>, rest: Seq<char>)
    requires
        call.len() >= 4,
        prefix.len() > 0,
        call[2] == prefix + rest,
        !contains(rest, prefix),
    ensures
        starts_with(call.drop_last()[2], prefix),
        split_args_spec(prefix, call.drop_last()) == split(rest, " "@),
{
    assert(call.drop_last()[2] == call[2]);
    assert((prefix + rest).subrange(0, prefix.len() as int) =~= prefix);
    lemma_split_after_prefix(prefix, rest);
}

/// The words of a command word, a target and more words: the command, the
/// target, and words that join back into the rest.
proof fn lemma_command_words(cmd: Seq<char>, target: Seq<char>, reason: Option<Seq<char>>)
    requires
        lacks(cmd, ' '),
        lacks(target, ' '),
    ensures
        ({
            let argv = split(cmd + " "@ + target + more_words(reason), " "@);
            &&& argv.len() >= 2
            &&& argv[0] == cmd
            &&& argv[1] == target
            &&& join(argv.subrange(2, argv.len() as int), " "@) == words_text(reason)
        }),
{
    reveal_strlit(" ");
    let sp = " "@;
    let tail = target + more_words(reason);
    assert(cmd + sp + target + more_words(reason) =~= cmd + sp + tail);
    lemma_split_front(cmd, sp, tail);
    let argv = split(cmd + sp + tail, sp);
    match reason {
        Some(r) => {
            assert(tail =~= target + sp + r);
            lemma_split_front(target, sp, r);
            assert(argv.subrange(2, argv.len() as int) =~= split(r, sp));
            lemma_join_split(r, sp);
        },
        None => {
            assert(tail =~= target);
            lemma_split_whole(target, sp);
            assert(argv.subrange(2, argv.len() as int) =~= Seq::<Seq<char>>::empty());
        },
    }
}

/// An admin's `kick` that names a player kicks that player, with the whole
/// rest of the chat text as the reason, whatever number of words it has
/// (no more words give an empty reason): one request and nothing else.
pub proof fn lemma_kick_whole_reason(
    prefix: Seq<char>,
    admins: Seq<Seq<char>>,
    call: Seq<Seq<char>>,
    target: Seq<char>,
    reason: Option<Seq<char>>,
)
    requires
        call.len() >= 4,
        call.last() == player_chat(),
        admins.contains(call[1]),
        prefix.len() > 0,
        call[2] == prefix + "kick"@ + " "@ + target + more_words(reason),
        !contains("kick"@ + " "@ + target + more_words(reason), prefix),
        lacks(target, ' '),
    ensures
        core_requests(prefix, admins, call) == seq![kick_request(target, words_text(reason))],
{
    let rest = "kick"@ + " "@ + target + more_words(reason);
    assert(call[2] =~= prefix + rest);
    lemma_chat_words(prefix, call, rest);
    reveal_strlit("kick");
    lemma_command_words("kick"@, target, reason);
    assert(call.drop_last()[1] == call[1]);
}

/// An admin's `ban` that names a player bans and blacklists that player,
/// with the whole rest of the chat text as the reason, whatever number of
/// words it has (none gives an empty reason): one request and nothing else.
pub proof fn lemma_ban_whole_reason(
    prefix: Seq<char>,
    admins: Seq<Seq<char>>,
    call: Seq<Seq<char>>,
    target: Seq<char>,
    reason: Option<Seq<char>>,
)
    requires
        call.len() >= 4,
        call.last() == player_chat(),
        admins.contains(call[1]),
        prefix.len() > 0,
        call[2] == prefix + "ban"@ + " "@ + target + more_words(reason),
        !contains("ban"@ + " "@ + target + more_words(reason), prefix),
        lacks(target, ' '),
    ensures
        core_requests(prefix, admins, call) == seq![ban_request(target, words_text(reason))],
{
    let rest = "ban"@ + " "@ + target + more_words(reason);
    assert(call[2] =~= prefix + rest);
    lemma_chat_words(prefix, call, rest);
    reveal_strlit("ban");
    reveal_strlit("kick");
    lemma_command_words("ban"@, target, reason);
    assert(call.drop_last()[1] == call[1]);
}

/// Everyone who asks for help, admin or not, gets the four help lines,
/// each a chat line addressed to the sender, whatever words follow the
/// command.
pub proof fn lemma_corehelp_for_everyone(
    prefix: Seq<char>,
    admins: Seq<Seq<char>>,
    call: Seq<Seq<char>>,
    more: Option<Seq<char>>,
)
    requires
        call.len() >= 4,
        call.last() == player_chat(),
        prefix.len() > 0,
        call[2] == prefix + "corehelp"@ + more_words(more),
        !contains("corehelp"@ + more_words(more), prefix),
    ensures
        core_requests(prefix, admins, call) == seq![
            chat_to("Help for xrdCore:"@, call[1]),
            chat_to("--ADMIN ONLY COMMANDS--"@, call[1]),
            chat_to("kick: Kicks a player with a specified reason."@, call[1]),
            chat_to("ban: Bans a player with a specified reason."@, call[1]),
        ],
{
    let rest = "corehelp"@ + more_words(more);
    assert(call[2] =~= prefix + rest);
    lemma_chat_words(prefix, call, rest);
    reveal_strlit("corehelp");
    reveal_strlit("kick");
    reveal_strlit("ban");
    reveal_strlit(" ");
    let sp = " "@;
    match more {
        Some(r) => {
            assert(rest =~= "corehelp"@ + sp + r);
            lemma_split_front("corehelp"@, sp, r);
        },
        None => {
            assert(rest =~= "corehelp"@);
            lemma_split_whole("corehelp"@, sp);
        },
    }
    assert(split(rest, sp)[0] == "corehelp"@);
    assert(call.drop_last()[1] == call[1]);
    assert(core_requests(prefix, admins, call) =~= seq![
        chat_to("Help for xrdCore:"@, call[1]),
        chat_to("--ADMIN ONLY COMMANDS--"@, call[1]),
        chat_to("kick: Kicks a player with a specified reason."@, call[1]),
        chat_to("ban: Bans a player with a specified reason."@, call[1]),
    ]);
}

} // verus!
