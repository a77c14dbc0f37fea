use xrd::{
    authenticate_request, can_answer, can_xform, cram, decode_reply, enable_callbacks_request,
    frame_request, greeting_ok, handle_callback, minify_request, parse, respond, splitArgs, xform,
    HostInfo, Value,
};
use xrd::{load_config, ConfigError};

fn s(x: &str) -> String {
    x.to_string()
}

fn strings(xs: &[&str]) -> Vec<String> {
    xs.iter().map(|x| x.to_string()).collect()
}

const CHAT_CALL: &str = "<?xml version=\"1.0\" encoding=\"UTF-8\"?>\n<methodCall>\n<methodName>TrackMania.PlayerChat</methodName>\n<params>\n<param><value><i4>0</i4></value></param>\n<param><value><string>bob</string></value></param>\n<param><value><string>TEXT</string></value></param>\n<param><value><boolean>0</boolean></value></param>\n</params>\n</methodCall>";

fn chat(text: &str) -> String {
    CHAT_CALL.replace("TEXT", text)
}

fn info(prefix: &str, admins: &[&str]) -> HostInfo {
    HostInfo { prefix: s(prefix), admins: strings(admins) }
}

fn call_xml(method: &str, params: &[&str]) -> String {
    let mut out = format!("<methodCall><methodName>{}</methodName><params>", method);
    for p in params {
        out.push_str(p);
    }
    out.push_str("</params></methodCall>");
    out
}

fn string_param(v: &str) -> String {
    format!("<param><value><string>{}</string></value></param>", v)
}

const DENIED: &str = "You tried to use an admin-only command, but you have no permission.";

#[test]
fn xform_enable_callbacks() {
    let out = xform(s("\nmc\nmn EnableCallbacks\npa\npaa va bool true"));
    assert_eq!(
        out,
        "<methodCall><methodName>EnableCallbacks</methodName><params><param><value><boolean>1</boolean></value></param></params></methodCall>"
    );
}

#[test]
fn xform_all_parameter_types() {
    let out = xform(s("\nmc\nmn M\npa\npaa va str a\npaa va int 42\npaa va bool false\nhello"));
    assert_eq!(
        out,
        "<methodCall><methodName>M</methodName><params><param><value><string>a</string></value></param><param><value><i4>42</i4></value></param><param><value><boolean>0</boolean></value></param></params></methodCall>"
    );
}

#[test]
fn xform_takes_the_second_piece() {
    assert_eq!(xform(s("mc\nmnx mn y\npa")), "<methodCall><methodName>y</methodName><params></params></methodCall>");
    assert_eq!(
        xform(s("paa va str a str b")),
        "<param><value><string>a </string></value></param></params></methodCall>"
    );
}

#[test]
fn xform_ignores_unknown_parameters() {
    assert_eq!(xform(s("paa va bool yes\npaa va float 1")), "</params></methodCall>");
    assert_eq!(xform(s("")), "</params></methodCall>");
}

#[test]
fn can_xform_reports_rejected_lines() {
    assert!(!can_xform("mn"));
    assert!(!can_xform("mc\nmnX"));
    assert!(!can_xform("paa va"));
    assert!(!can_xform("paa va str"));
    assert!(!can_xform("paa va int"));
    assert!(can_xform("mc\nmn X\npa\npaa va str y"));
    assert!(can_xform("paa va bool true"));
    assert!(can_xform("anything else"));
}

#[test]
fn cram_is_utf8() {
    assert_eq!(cram(s("é")), vec![0xc3, 0xa9]);
    assert_eq!(cram(s("mc")), b"mc".to_vec());
    assert_eq!(cram(s("")), Vec::<u8>::new());
}

#[test]
fn split_args_words() {
    assert_eq!(splitArgs(&s("!"), &strings(&["a", "b", "!say  hi"])), strings(&["say", "", "hi"]));
    assert_eq!(splitArgs(&s("!"), &strings(&["a", "b", "!a!b c"])), strings(&["a"]));
    assert_eq!(splitArgs(&s("//"), &strings(&["a", "b", "//kick bob now"])), strings(&["kick", "bob", "now"]));
}

#[test]
fn split_args_empty_prefix() {
    assert_eq!(splitArgs(&s(""), &strings(&["a", "b", "xy z"])), strings(&["x"]));
    assert_eq!(splitArgs(&s(""), &strings(&["a", "b", ""])), strings(&[""]));
}

#[test]
fn split_args_join_gives_text_back() {
    let words = splitArgs(&s("!"), &strings(&["a", "b", "!kick  bob for   fun"]));
    assert_eq!(words.join(" "), "kick  bob for   fun");
}

#[test]
fn parse_player_chat() {
    assert_eq!(
        parse(chat("!kick alice cheating")),
        strings(&["0", "bob", "!kick alice cheating", "0", "TrackMania.PlayerChat"])
    );
}

#[test]
fn parse_strips_transport_prefix() {
    let msg = format!("\\\u{1}\0\0\u{2}\0\0\0{}", chat("hi"));
    assert_eq!(parse(msg), strings(&["0", "bob", "hi", "0", "TrackMania.PlayerChat"]));
}

#[test]
fn parse_method_response() {
    let msg = s("<?xml version=\"1.0\" encoding=\"UTF-8\"?><methodResponse>\n<params>\n</params>");
    assert_eq!(parse(msg), strings(&["Invalid XML-RPC"]));
}

#[test]
fn parse_not_xml() {
    assert_eq!(parse(s("hello")), strings(&[""]));
    assert_eq!(parse(s("<?xml\n<foo>")), strings(&[""]));
}

#[test]
fn parse_unreadable_calls() {
    let check = strings(&["Invalid XML-RPC, check server output"]);
    assert_eq!(parse(s("<?xml")), check);
    assert_eq!(parse(s("<?xml\n<methodCall>\n<methodName>")), check);
    assert_eq!(parse(s("<?xml\n<methodCall>\n<param><value></string>x<string></value></param>")), check);
}

#[test]
fn parse_concatenates_method_names() {
    let msg = s("<?xml\n<methodCall>\n<methodName>a</methodName>\n<methodName>b</methodName>");
    assert_eq!(parse(msg), strings(&["ab"]));
}

#[test]
fn parse_skips_values_without_type() {
    let msg = s("<?xml\n<methodCall>\n<methodName>m</methodName>\n<param><value>7</value></param>\n<param><value><string>h\u{e9}llo</string></value></param>");
    assert_eq!(parse(msg), strings(&["h\u{e9}llo", "m"]));
}

#[test]
fn frame_header() {
    assert_eq!(frame_request(&[1, 2, 3]), vec![3, 0, 0, 0, 0, 0, 0, 0x80, 1, 2, 3]);
    let big = vec![7u8; 300];
    let f = frame_request(&big);
    assert_eq!(&f[..8], &[44, 1, 0, 0, 0, 0, 0, 0x80]);
    assert_eq!(&f[8..], &big[..]);
}

#[test]
fn decode_reply_strips_framing() {
    assert_eq!(decode_reply(b"\x01\0\0\x02\0\0\0hello"), "hello");
    assert_eq!(decode_reply(b"V\x01\0\0\x02\0\0\0hi"), "hi");
    assert_eq!(decode_reply(b"\x01\0\0\x02\0\0\0V\x01\0\0\x02\0\0\0x"), "x");
    assert_eq!(decode_reply(b"plain\0\0"), "plain\0\0");
}

#[test]
fn decode_reply_invalid_utf8() {
    assert_eq!(decode_reply(&[0x41, 0xff, 0x42]), "None");
}

#[test]
fn greeting() {
    assert!(greeting_ok(b"GBXRemote 2\0"));
    assert!(greeting_ok(b"\0GBXRemote 2"));
    assert!(!greeting_ok(b"GBXRemote 1\0"));
    assert!(!greeting_ok(&[0xff; 12]));
    assert!(!greeting_ok(b"\0\0\0\0\0\0\0\0\0\0\0\0"));
}

#[test]
fn authenticate_and_callbacks_requests() {
    let auth = authenticate_request("pw");
    assert_eq!(auth, "\nmc\nmn Authenticate\npa\npaa va str SuperAdmin\npaa va str pw");
    assert_eq!(
        xform(auth),
        call_xml("Authenticate", &[&string_param("SuperAdmin"), &string_param("pw")])
    );
    let cb = enable_callbacks_request();
    assert_eq!(cb, "\nmc\nmn EnableCallbacks\npa\npaa va bool true");
}

#[test]
fn minify_then_xform_reads_back() {
    let text = minify_request(
        "SetServerName",
        &[Value::Str(s("My server")), Value::Int(s("7")), Value::Bool(false)],
    );
    assert_eq!(
        xform(text),
        call_xml(
            "SetServerName",
            &[
                &string_param("My server"),
                "<param><value><i4>7</i4></value></param>",
                "<param><value><boolean>0</boolean></value></param>",
            ]
        )
    );
}

#[test]
fn admin_kick() {
    let data = chat("!kick alice cheating");
    let i = info("!", &["bob"]);
    assert!(can_answer(&i, &data));
    let out = handle_callback(&i, 3, data);
    assert_eq!(out.len(), 1);
    assert_eq!(out[0].lim, 3);
    assert_eq!(
        out[0].data,
        call_xml("Kick", &[&string_param("alice"), &string_param("cheating")]).into_bytes()
    );
}

#[test]
fn admin_ban_with_long_reason() {
    let data = chat("!ban alice for good");
    let out = handle_callback(&info("!", &["bob"]), 1, data);
    assert_eq!(out.len(), 1);
    assert_eq!(
        out[0].data,
        call_xml(
            "BanAndBlackList",
            &[
                &string_param("alice"),
                &string_param("for good"),
                "<param><value><boolean>1</boolean></value></param>",
            ]
        )
        .into_bytes()
    );
}

#[test]
fn non_admin_is_denied() {
    for cmd in ["!kick alice", "!ban alice x"] {
        let out = handle_callback(&info("!", &["carol"]), 2, chat(cmd));
        assert_eq!(out.len(), 1);
        assert_eq!(out[0].lim, 2);
        assert_eq!(
            out[0].data,
            call_xml("ChatSendToLogin", &[&string_param(DENIED), &string_param("bob")]).into_bytes()
        );
    }
}

#[test]
fn corehelp_sends_four_lines() {
    let out = handle_callback(&info("!", &[]), 0, chat("!corehelp"));
    let lines = [
        "Help for xrdCore:",
        "--ADMIN ONLY COMMANDS--",
        "kick: Kicks a player with a specified reason.",
        "ban: Bans a player with a specified reason.",
    ];
    assert_eq!(out.len(), 4);
    for (p, l) in out.iter().zip(lines.iter()) {
        assert_eq!(p.lim, 0);
        assert_eq!(p.data, call_xml("ChatSendToLogin", &[&string_param(l), &string_param("bob")]).into_bytes());
    }
}

#[test]
fn other_calls_get_no_answer() {
    assert!(handle_callback(&info("!", &["bob"]), 0, chat("hello")).is_empty());
    assert!(handle_callback(&info("!", &["bob"]), 0, chat("!unknown")).is_empty());
    assert!(handle_callback(&info("!", &["bob"]), 0, s("not xml")).is_empty());
    let other = CHAT_CALL.replace("TrackMania.PlayerChat", "TrackMania.PlayerConnect");
    assert!(handle_callback(&info("!", &["bob"]), 0, other).is_empty());
}

#[test]
fn kick_without_target_cannot_be_answered() {
    let i = info("!", &["bob"]);
    assert!(!can_answer(&i, &chat("!kick")));
    assert!(can_answer(&info("!", &["carol"]), &chat("!kick")));
    let short = s("<?xml\n<methodCall>\n<methodName>TrackMania.PlayerChat</methodName>");
    assert!(!can_answer(&i, &short));
}

#[test]
fn respond_on_values() {
    let call = strings(&["0", "bob", "!corehelp", "0", "TrackMania.PlayerChat"]);
    assert_eq!(respond(&info("!", &[]), 9, &call).len(), 4);
    let call = strings(&["0", "bob", "?corehelp", "0", "TrackMania.PlayerChat"]);
    assert!(respond(&info("!", &[]), 9, &call).is_empty());
}

#[test]
fn reply_of_crammed_text() {
    for t in ["hello", "h\u{e9}llo \u{1F600}", "", "V"] {
        assert_eq!(decode_reply(&cram(s(t))), t);
    }
}

const CONFIG: &str = r#"{
  "Version": ["0.1", 2],
  "VirtualHosts": [
    {"Host": "127.0.0.1", "Port": "5000", "Prefix": "!", "Type": "TM2", "Password": "pw",
     "Admins": ["bob", "carol"]},
    {"Host": "h", "Prefix": "!", "Type": "TM2", "Password": "pw"},
    {"Host": "h", "Port": 5000, "Prefix": "!", "Type": "TM2", "Password": "pw"},
    {"Host": "h", "Port": "1", "Prefix": "!", "Type": "TM2", "Password": "pw", "Admins": ["a", 3]},
    {"Host": "h", "Port": "1", "Prefix": "!", "Type": "TM2", "Password": "pw"},
    {"Host": "h", "Port": "1", "Prefix": "!", "Type": "TM2", "Password": "pw", "Admins": "bob"},
    {"Port": "1"},
    {"Host": "h", "Port": "1", "Prefix": "!", "Password": "pw"}
  ]
}"#;

#[test]
fn config_reads_hosts() {
    let cnf = load_config(CONFIG).unwrap();
    assert_eq!(cnf.version.0, "0.1");
    assert_eq!(cnf.version.1, "2");
    assert_eq!(cnf.hosts.len(), 8);
    let vh = cnf.hosts[0].as_ref().unwrap();
    assert_eq!(vh.host, "127.0.0.1");
    assert_eq!(vh.port, "5000");
    assert_eq!(vh.prefix, "!");
    assert_eq!(vh.typ, "TM2");
    assert_eq!(vh.password, "pw");
    assert_eq!(vh.admins, strings(&["bob", "carol"]));
}

#[test]
fn config_errors_per_host() {
    let cnf = load_config(CONFIG).unwrap();
    let err = |i: usize| cnf.hosts[i].as_ref().err().copied();
    assert_eq!(err(1), Some(ConfigError::NoPort));
    assert_eq!(err(2), Some(ConfigError::NoPort));
    assert_eq!(err(3), Some(ConfigError::AdminNotString));
    assert_eq!(err(6), Some(ConfigError::NoHost));
    assert_eq!(err(7), Some(ConfigError::NoType));
    assert_eq!(cnf.hosts[4].as_ref().unwrap().admins, Vec::<String>::new());
    assert_eq!(cnf.hosts[5].as_ref().unwrap().admins, Vec::<String>::new());
    assert_eq!(ConfigError::NoHost.message(), "No host was specified.");
    assert_eq!(ConfigError::AdminNotString.message(), "Admins array is exclusively made of strings");
}

#[test]
fn config_invalid_or_empty() {
    assert_eq!(load_config("{ not json").err(), Some(ConfigError::InvalidJson));
    let cnf = load_config("{}").unwrap();
    assert_eq!(cnf.hosts.len(), 0);
    assert_eq!(cnf.version.0, "null");
}

#[test]
fn config_admins_reach_host_info() {
    let cnf = load_config(CONFIG).unwrap();
    let vh = cnf.hosts.into_iter().next().unwrap().unwrap();
    let info = vh.host_info();
    assert_eq!(info.prefix, "!");
    assert_eq!(info.admins, strings(&["bob", "carol"]));
    let out = handle_callback(&info, 0, chat("!kick alice x"));
    assert_eq!(out[0].data, call_xml("Kick", &[&string_param("alice"), &string_param("x")]).into_bytes());
}

#[test]
fn xform_ignores_other_lines() {
    let base = s("\nmc\nmn M\npa\npaa va str a");
    let expected = xform(base.clone());
    assert_eq!(xform(format!("{}\nfoo", base)), expected);
    assert_eq!(xform(format!(" mc\n{}", base)), expected);
}

#[test]
fn xform_params_after_headers() {
    assert_eq!(
        xform(s("mc\npaa va str a\nmn M\npaa va int 1\npa")),
        xform(s("mc\nmn M\npa\npaa va str a\npaa va int 1"))
    );
}
