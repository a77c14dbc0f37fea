//! Callbacks from the server: the XML-RPC text of a method call, read into
//! the values of its parameters followed by the name of its method.
//!
//! The text is scanned line by line as bytes. The opening and closing type
//! tags of a parameter value are found with an Aho-Corasick automaton.
use vstd::prelude::*;
use vstd::utf8::{
    encode_utf8, encode_utf8_valid_utf8, is_ascii_chars, is_ascii_chars_encode_utf8,
};
use aho_corasick::AhoCorasick;
use crate::text::{
    bytes_contains, bytes_rfind, bytes_split_ranges, bytes_starts_with, contains, lacks,
    join, last_index, lemma_join_front, lemma_lacks_contains, lemma_last_index, lemma_split_join, lemma_split_len, lemma_split_sep_lacks, occurs_at, pieces,
    ranges_within, split, starts_with,
};
use crate::encoding::{lemma_ascii_boundary, lemma_encode_concat, lemma_valid_between};

verus! {

/// An `aho_corasick::AhoCorasick` automaton, which searches a haystack for
/// several byte strings at once. Verus does not accept a declaration of
/// the outside type (its state-id parameter is bound by an outside trait),
/// so it is held here, out of Verus's sight.
#[verifier::external_body]
pub struct Automaton {
    ac: AhoCorasick,
}

/// The byte strings that an automaton searches for, in the order they
/// were given to it.
pub uninterp spec fn automaton_patterns(a: Automaton) -> Seq<Seq<u8>>;

/// One of `pats` occurs in `x` from `s` up to `e`.
pub open spec fn tag_at(x: Seq<u8>, pats: Seq<Seq<u8>>, s: int, e: int) -> bool {
    exists|k: int| 0 <= k < pats.len() && e == s + pats[k].len() && occurs_at(x, pats[k], s)
}

/// An occurrence of one of `pats` in `x` that ends no later than any other.
pub open spec fn earliest_tag(x: Seq<u8>, pats: Seq<Seq<u8>>, s: int, e: int) -> bool {
    &&& tag_at(x, pats, s, e)
    &&& forall|s2: int, e2: int| tag_at(x, pats, s2, e2) ==> e <= e2
}

/// The occurrence of one of `pats` in `x` that ends first, if any.
pub open spec fn first_tag(x: Seq<u8>, pats: Seq<Seq<u8>>) -> Option<(int, int)> {
    if exists|s: int, e: int| earliest_tag(x, pats, s, e) {
        Some(choose|s: int, e: int| earliest_tag(x, pats, s, e))
    } else {
        None
    }
}

/// `AhoCorasick::new_auto_configured`: an automaton, with the default
/// standard match semantics, that searches for the given byte strings.
/// The contract claims that the automaton searches for exactly those.
#[verifier::external_body]
fn build_automaton(patterns: &Vec<Vec<u8>>) -> (res: Automaton)
    ensures
        automaton_patterns(res) == patterns@.map_values(|p: Vec<u8>| p@),
{
    Automaton { ac: AhoCorasick::new_auto_configured(patterns.as_slice()) }
}

/// `AhoCorasick::find` on an automaton with standard match semantics: the
/// first match detected while scanning the haystack from the left, that is
/// a match that ends no later than any other, as `(start, end)` byte
/// offsets; `None` when no pattern occurs. The documentation does not say
/// which match is reported when two patterns end at the same offset, and
/// the contract does not say either.
#[verifier::external_body]
fn find_earliest(ac: &Automaton, haystack: &[u8]) -> (res: Option<(usize, usize)>)
    ensures
        res is None <==> !exists|s: int, e: int| tag_at(haystack@, automaton_patterns(*ac), s, e),
        res matches Some(m) ==> earliest_tag(
            haystack@,
            automaton_patterns(*ac),
            m.0 as int,
            m.1 as int,
        ),
{
    match ac.ac.find(haystack) {
        Some(m) => Some((m.start(), m.end())),
        None => None,
    }
}

/// The UTF-8 bytes of a literal.
pub open spec fn lit(s: &str) -> Seq<u8> {
    encode_utf8(s@)
}

/// The opening type tags of a parameter value.
pub open spec fn open_tags() -> Seq<Seq<u8>> {
    seq![lit("<string>"), lit("<boolean>"), lit("<i4>"), lit("<struct>")]
}

/// The closing type tags of a parameter value.
pub open spec fn close_tags() -> Seq<Seq<u8>> {
    seq![lit("</string>"), lit("</boolean>"), lit("</i4>"), lit("</struct>")]
}

/// The prefix that the transport puts before some callbacks.
pub open spec fn transport_prefix() -> Seq<u8> {
    lit("\\\u{1}\0\0\u{2}\0\0\0")
}

/// The line feed, as bytes.
pub open spec fn newline() -> Seq<u8> {
    seq![10u8]
}

/// What a value line adds to the values read so far: the text between
/// the first opening and the first closing type tag. A line that holds no
/// `<value>` and does not start with `<param><value>` adds nothing, nor
/// does a line without both tags. `None` when the closing tag comes before
/// the end of the opening one.
pub open spec fn value_args(x: Seq<u8>, args: Seq<Seq<u8>>) -> Option<Seq<Seq<u8>>> {
    if contains(x, lit("<value>")) || starts_with(x, lit("<param><value>")) {
        match (first_tag(x, open_tags()), first_tag(x, close_tags())) {
            (Some(o), Some(c)) => if c.0 < o.1 {
                None
            } else {
                Some(args.push(x.subrange(o.1, c.0)))
            },
            _ => Some(args),
        }
    } else {
        Some(args)
    }
}

/// What one line of a method call contributes to the values and the
/// method name read so far. A `<methodName>` line adds the text up to its
/// last `<`; `None` when that `<` is part of the tag itself.
#[verifier::opaque]
pub open spec fn line_step(x: Seq<u8>, args: Seq<Seq<u8>>, name: Seq<u8>) -> Option<
    (Seq<Seq<u8>>, Seq<u8>),
> {
    if starts_with(x, lit("<methodName>")) {
        let e = last_index(x, 60u8);
        if e < lit("<methodName>").len() {
            None
        } else {
            match value_args(x, args) {
                Some(a) => Some((a, name + x.subrange(lit("<methodName>").len() as int, e))),
                None => None,
            }
        }
    } else if starts_with(x, lit("<params>")) {
        Some((args, name))
    } else {
        match value_args(x, args) {
            Some(a) => Some((a, name)),
            None => None,
        }
    }
}

/// The values and the method name read from the lines of a method call.
pub open spec fn scan(lines: Seq<Seq<u8>>) -> Option<(Seq<Seq<u8>>, Seq<u8>)>
    decreases lines.len(),
{
    if lines.len() == 0 {
        Some((Seq::empty(), Seq::empty()))
    } else {
        match scan(lines.drop_last()) {
            Some(st) => line_step(lines.last(), st.0, st.1),
            None => None,
        }
    }
}

/// The result of reading a callback, as bytes: the parameter values
/// followed by the method name; `["Invalid XML-RPC"]` for a method
/// response; `["Invalid XML-RPC, check server output"]` for a call that
/// cannot be read.
pub open spec fn parse_spec(message: Seq<u8>) -> Seq<Seq<u8>> {
    let body = if starts_with(message, transport_prefix()) {
        message.subrange(transport_prefix().len() as int, message.len() as int)
    } else {
        message
    };
    let lines = split(body, newline());
    if starts_with(
        lines[0],
        lit("<?xml version=\"1.0\" encoding=\"UTF-8\"?><methodResponse>"),
    ) {
        seq![lit("Invalid XML-RPC")]
    } else if starts_with(lines[0], lit("<?xml")) {
        if lines.len() < 2 {
            seq![lit("Invalid XML-RPC, check server output")]
        } else if starts_with(lines[1], lit("<methodCall>")) {
            match scan(lines.subrange(2, lines.len() as int)) {
                Some(st) => st.0.push(st.1),
                None => seq![lit("Invalid XML-RPC, check server output")],
            }
        } else {
            seq![Seq::empty()]
        }
    } else {
        seq![Seq::empty()]
    }
}

/// The UTF-8 bytes of each string of a list.
pub open spec fn utf8_views(v: Seq<String>) -> Seq<Seq<u8>> {
    v.map_values(|s: String| encode_utf8(s@))
}


/// Every tag is at least two bytes long, starts with `<` and ends with
/// `>`, and no two tags share their second-to-last byte.
pub open spec fn tag_set_shape(pats: Seq<Seq<u8>>) -> bool {
    forall|k: int, k2: int|
        0 <= k < pats.len() && 0 <= k2 < pats.len() ==> {
            &&& (#[trigger] pats[k]).len() >= 2
            &&& pats[k][0] == 60u8
            &&& pats[k][pats[k].len() - 1] == 62u8
            &&& (k != k2 ==> pats[k][pats[k].len() - 2] != (#[trigger] pats[k2])[pats[k2].len()
                - 2])
        }
}

proof fn lemma_lit_ascii(s: &str)
    requires
        is_ascii_chars(s@),
    ensures
        lit(s).len() == s@.len(),
        forall|i: int| 0 <= i < s@.len() ==> lit(s)[i] == s@[i] as u8,
{
    is_ascii_chars_encode_utf8(s@);
}

pub proof fn lemma_tag_shapes()
    ensures
        tag_set_shape(open_tags()),
        tag_set_shape(close_tags()),
{
    reveal_strlit("<string>");
    reveal_strlit("<boolean>");
    reveal_strlit("<i4>");
    reveal_strlit("<struct>");
    reveal_strlit("</string>");
    reveal_strlit("</boolean>");
    reveal_strlit("</i4>");
    reveal_strlit("</struct>");
    lemma_lit_ascii("<string>");
    lemma_lit_ascii("<boolean>");
    lemma_lit_ascii("<i4>");
    lemma_lit_ascii("<struct>");
    lemma_lit_ascii("</string>");
    lemma_lit_ascii("</boolean>");
    lemma_lit_ascii("</i4>");
    lemma_lit_ascii("</struct>");
}

/// With tags of that shape, the occurrence that ends first is unique, so it
/// is the one the automaton reports.
proof fn lemma_first_tag_is(x: Seq<u8>, pats: Seq<Seq<u8>>, s: int, e: int)
    requires
        tag_set_shape(pats),
        earliest_tag(x, pats, s, e),
    ensures
        first_tag(x, pats) == Some((s, e)),
{
    let (s2, e2) = choose|s2: int, e2: int| earliest_tag(x, pats, s2, e2);
    assert(earliest_tag(x, pats, s2, e2));
    assert(e == e2);
    let k = choose|k: int| 0 <= k < pats.len() && e == s + pats[k].len() && occurs_at(x, pats[k], s);
    let k2 = choose|k2: int|
        0 <= k2 < pats.len() && e2 == s2 + pats[k2].len() && occurs_at(x, pats[k2], s2);
    assert(x.subrange(s, e)[pats[k].len() - 2] == x[e - 2]);
    assert(x.subrange(s2, e2)[pats[k2].len() - 2] == x[e - 2]);
    if k != k2 {
        assert(pats[k][pats[k].len() - 2] != pats[k2][pats[k2].len() - 2]);
    }
}

proof fn lemma_first_tag_none(x: Seq<u8>, pats: Seq<Seq<u8>>)
    requires
        !exists|s: int, e: int| tag_at(x, pats, s, e),
    ensures
        first_tag(x, pats) is None,
{
}

/// A tag occurrence starts with `<` and ends with `>`.
proof fn lemma_tag_ends(x: Seq<u8>, pats: Seq<Seq<u8>>, s: int, e: int)
    requires
        tag_set_shape(pats),
        tag_at(x, pats, s, e),
    ensures
        0 <= s,
        s + 2 <= e <= x.len(),
        x[s] == 60u8,
        x[e - 1] == 62u8,
{
    let k = choose|k: int| 0 <= k < pats.len() && e == s + pats[k].len() && occurs_at(x, pats[k], s);
    assert(pats[k].len() >= 2);
    assert(x.subrange(s, e)[0] == x[s]);
    assert(x.subrange(s, e)[pats[k].len() - 1] == x[e - 1]);
}

/// Once a line cannot be read, the whole call cannot.
proof fn lemma_scan_none_extends(lines: Seq<Seq<u8>>, j: int)
    requires
        0 <= j <= lines.len(),
        scan(lines.subrange(0, j)) is None,
    ensures
        scan(lines) is None,
    decreases lines.len() - j,
{
    if j == lines.len() {
        assert(lines.subrange(0, j) =~= lines);
    } else {
        assert(lines.subrange(0, j + 1).drop_last() =~= lines.subrange(0, j));
        lemma_scan_none_extends(lines, j + 1);
    }
}

/// The UTF-8 bytes of a literal, as a vector.
fn lit_bytes(s: &str) -> (res: Vec<u8>)
    ensures
        res@ == lit(s),
{
    s.as_bytes_vec()
}

/// The text of `s` between two byte offsets that fall on character
/// boundaries.
fn text_between(s: &str, lo: usize, hi: usize) -> (res: String)
    requires
        lo <= hi <= encode_utf8(s@).len(),
        vstd::utf8::is_char_boundary(encode_utf8(s@), lo as int),
        vstd::utf8::is_char_boundary(encode_utf8(s@), hi as int),
    ensures
        encode_utf8(res@) == encode_utf8(s@).subrange(lo as int, hi as int),
{
    proof {
        encode_utf8_valid_utf8(s@);
        lemma_valid_between(encode_utf8(s@), lo as int, hi as int);
    }
    let (_, rest) = s.split_at(lo);
    let (mid, _) = rest.split_at(hi - lo);
    assert(encode_utf8(mid@) =~= encode_utf8(s@).subrange(lo as int, hi as int));
    mid.to_owned()
}


/// Reads the value of one line of a method call, the line being `x`, which
/// is the text of `s` from byte `a` on. Returns false when the closing tag
/// comes before the end of the opening one.
fn read_value(
    s: &str,
    a: usize,
    x: &[u8],
    open_ac: &Automaton,
    close_ac: &Automaton,
    value: &[u8],
    param_value: &[u8],
    args: &mut Vec<String>,
) -> (ok: bool)
    requires
        a + x@.len() <= encode_utf8(s@).len(),
        a + x@.len() <= usize::MAX,
        x@ == encode_utf8(s@).subrange(a as int, a + x@.len()),
        automaton_patterns(*open_ac) == open_tags(),
        automaton_patterns(*close_ac) == close_tags(),
        value@ == lit("<value>"),
        param_value@ == lit("<param><value>"),
    ensures
        ok == value_args(x@, utf8_views(old(args)@)) is Some,
        ok ==> value_args(x@, utf8_views(old(args)@)) == Some(utf8_views(final(args)@)),
{
    let ghost bytes = encode_utf8(s@);
    proof {
        encode_utf8_valid_utf8(s@);
        lemma_tag_shapes();
    }
    if bytes_contains(x, value) || bytes_starts_with(x, param_value) {
        match find_earliest(open_ac, x) {
            None => {
                proof {
                    lemma_first_tag_none(x@, open_tags());
                }
                true
            },
            Some(o) => {
                proof {
                    lemma_first_tag_is(x@, open_tags(), o.0 as int, o.1 as int);
                }
                match find_earliest(close_ac, x) {
                    None => {
                        proof {
                            lemma_first_tag_none(x@, close_tags());
                        }
                        true
                    },
                    Some(c) => {
                        proof {
                            lemma_first_tag_is(x@, close_tags(), c.0 as int, c.1 as int);
                            lemma_tag_ends(x@, open_tags(), o.0 as int, o.1 as int);
                            lemma_tag_ends(x@, close_tags(), c.0 as int, c.1 as int);
                        }
                        if c.0 < o.1 {
                            return false;
                        }
                        proof {
                            assert(bytes[a + o.1 - 1] == x@[o.1 - 1]);
                            lemma_ascii_boundary(bytes, a + o.1 - 1);
                            assert(bytes[a + c.0] == x@[c.0 as int]);
                            lemma_ascii_boundary(bytes, a + c.0);
                        }
                        let v = text_between(s, a + o.1, a + c.0);
                        assert(encode_utf8(v@) =~= x@.subrange(o.1 as int, c.0 as int));
                        let ghost before = args@;
                        args.push(v);
                        assert(utf8_views(args@) =~= utf8_views(before).push(encode_utf8(v@)));
                        true
                    },
                }
            },
        }
    } else {
        true
    }
}

/// Reads one line of a method call, the line being `x`, which is the text
/// of `s` from byte `a` on. Returns false when the line cannot be read.
fn read_line(
    s: &str,
    a: usize,
    x: &[u8],
    open_ac: &Automaton,
    close_ac: &Automaton,
    name_tag: &[u8],
    params_tag: &[u8],
    value: &[u8],
    param_value: &[u8],
    args: &mut Vec<String>,
    name: &mut String,
) -> (ok: bool)
    requires
        a + x@.len() <= encode_utf8(s@).len(),
        a + x@.len() <= usize::MAX,
        x@ == encode_utf8(s@).subrange(a as int, a + x@.len()),
        automaton_patterns(*open_ac) == open_tags(),
        automaton_patterns(*close_ac) == close_tags(),
        name_tag@ == lit("<methodName>"),
        params_tag@ == lit("<params>"),
        value@ == lit("<value>"),
        param_value@ == lit("<param><value>"),
    ensures
        ok == line_step(x@, utf8_views(old(args)@), encode_utf8(old(name)@)) is Some,
        ok ==> line_step(x@, utf8_views(old(args)@), encode_utf8(old(name)@)) == Some(
            (utf8_views(final(args)@), encode_utf8(final(name)@)),
        ),
{
    let ghost bb = encode_utf8(s@);
    let ghost before_args = utf8_views(args@);
    let ghost before_name = encode_utf8(name@);
    proof {
        reveal(line_step);
        encode_utf8_valid_utf8(s@);
        reveal_strlit("<methodName>");
        lemma_lit_ascii("<methodName>");
    }
    if bytes_starts_with(x, name_tag) {
        proof {
            lemma_last_index(x@, 60u8);
            assert(x@[0] == name_tag@[0]) by {
                assert(x@.subrange(0, 12)[0] == x@[0]);
            }
        }
        let e = match bytes_rfind(x, 60u8) {
            Some(e) => e,
            None => {
                return false;
            },
        };
        if e < name_tag.len() {
            return false;
        }
        let ok = read_value(s, a, x, open_ac, close_ac, value, param_value, args);
        if !ok {
            return false;
        }
        proof {
            assert(x@[11] == name_tag@[11]) by {
                assert(x@.subrange(0, 12)[11] == x@[11]);
            }
            assert(bb[a + 11] == x@[11]);
            lemma_ascii_boundary(bb, a + 11);
            assert(bb[a + e] == x@[e as int]);
            lemma_ascii_boundary(bb, a + e);
        }
        let piece = text_between(s, a + name_tag.len(), a + e);
        assert(encode_utf8(piece@) =~= x@.subrange(12, e as int));
        let ghost old_name = name@;
        name.append(piece.as_str());
        proof {
            lemma_encode_concat(old_name, piece@);
        }
        true
    } else if bytes_starts_with(x, params_tag) {
        true
    } else {
        read_value(s, a, x, open_ac, close_ac, value, param_value, args)
    }
}

/// Reads a callback from the server into the values of its parameters
/// followed by the name of its method.
pub fn parse(message: String) -> (res: Vec<String>)
    ensures
        utf8_views(res@) == parse_spec(encode_utf8(message@)),
        res@.len() >= 1,
{
    let whole = message.as_str();
    let ghost m = encode_utf8(message@);
    proof {
        encode_utf8_valid_utf8(message@);
        reveal_strlit("\\\u{1}\0\0\u{2}\0\0\0");
        lemma_lit_ascii("\\\u{1}\0\0\u{2}\0\0\0");
    }
    let prefix = lit_bytes("\\\u{1}\0\0\u{2}\0\0\0");
    let body_str: &str = if bytes_starts_with(whole.as_bytes(), prefix.as_slice()) {
        proof {
            assert(m[7] == prefix@[7]) by {
                assert(m.subrange(0, 8)[7] == m[7]);
            }
            lemma_ascii_boundary(m, 7);
        }
        let (_, rest) = whole.split_at(prefix.len());
        rest
    } else {
        whole
    };
    let ghost body_spec = if starts_with(m, transport_prefix()) {
        m.subrange(transport_prefix().len() as int, m.len() as int)
    } else {
        m
    };
    let body = body_str.as_bytes();
    assert(body@ == body_spec);
    let ghost bb = body@;
    proof {
        encode_utf8_valid_utf8(body_str@);
    }
    let nl: Vec<u8> = vec![10u8];
    assert(nl@ =~= newline());
    let lines = bytes_split_ranges(body, nl.as_slice());
    let ghost ls = split(bb, newline());
    proof {
        lemma_split_len(bb, newline());
    }
    assert(pieces(bb, lines@) == ls);
    let r0 = lines[0];
    assert(r0 == lines@[0]);
    let line0 = vstd::slice::slice_subrange(body, r0.0, r0.1);
    assert(line0@ == ls[0]);
    let response = lit_bytes("<?xml version=\"1.0\" encoding=\"UTF-8\"?><methodResponse>");
    if bytes_starts_with(line0, response.as_slice()) {
        return vec!["Invalid XML-RPC".to_owned()];
    }
    let decl = lit_bytes("<?xml");
    if !bytes_starts_with(line0, decl.as_slice()) {
        let res = vec![String::new()];
        assert(utf8_views(res@) =~= seq![encode_utf8(Seq::<char>::empty())]);
        assert(encode_utf8(Seq::<char>::empty()) =~= Seq::<u8>::empty());
        return res;
    }
    if lines.len() < 2 {
        return vec!["Invalid XML-RPC, check server output".to_owned()];
    }
    let r1 = lines[1];
    assert(r1 == lines@[1]);
    let line1 = vstd::slice::slice_subrange(body, r1.0, r1.1);
    assert(line1@ == ls[1]);
    let call = lit_bytes("<methodCall>");
    if !bytes_starts_with(line1, call.as_slice()) {
        let res = vec![String::new()];
        assert(utf8_views(res@) =~= seq![encode_utf8(Seq::<char>::empty())]);
        assert(encode_utf8(Seq::<char>::empty()) =~= Seq::<u8>::empty());
        return res;
    }
    let open_pats: Vec<Vec<u8>> = vec![
        lit_bytes("<string>"),
        lit_bytes("<boolean>"),
        lit_bytes("<i4>"),
        lit_bytes("<struct>"),
    ];
    let close_pats: Vec<Vec<u8>> = vec![
        lit_bytes("</string>"),
        lit_bytes("</boolean>"),
        lit_bytes("</i4>"),
        lit_bytes("</struct>"),
    ];
    assert(open_pats@.map_values(|p: Vec<u8>| p@) =~= open_tags());
    assert(close_pats@.map_values(|p: Vec<u8>| p@) =~= close_tags());
    let open_ac = build_automaton(&open_pats);
    let close_ac = build_automaton(&close_pats);
    let name_tag = lit_bytes("<methodName>");
    let params_tag = lit_bytes("<params>");
    let value = lit_bytes("<value>");
    let param_value = lit_bytes("<param><value>");
    let ghost rest = ls.subrange(2, ls.len() as int);
    let mut args: Vec<String> = Vec::new();
    let mut name = String::new();
    assert(utf8_views(args@) =~= Seq::<Seq<u8>>::empty());
    assert(encode_utf8(name@) =~= Seq::<u8>::empty());
    assert(rest.subrange(0, 0) =~= Seq::<Seq<u8>>::empty());
    let mut k: usize = 2;
    while k < lines.len()
        invariant
            body@ == bb,
            bb == encode_utf8(body_str@),
            m == encode_utf8(message@),
            bb == body_spec,
            body_spec == (if starts_with(m, transport_prefix()) {
                m.subrange(transport_prefix().len() as int, m.len() as int)
            } else {
                m
            }),
            !starts_with(
                ls[0],
                lit("<?xml version=\"1.0\" encoding=\"UTF-8\"?><methodResponse>"),
            ),
            starts_with(ls[0], lit("<?xml")),
            ls.len() >= 2,
            starts_with(ls[1], lit("<methodCall>")),
            ls == split(bb, newline()),
            pieces(bb, lines@) == ls,
            ranges_within(lines@, bb.len() as int),
            ls.len() == lines@.len(),
            rest == ls.subrange(2, ls.len() as int),
            2 <= k <= lines@.len(),
            automaton_patterns(open_ac) == open_tags(),
            automaton_patterns(close_ac) == close_tags(),
            name_tag@ == lit("<methodName>"),
            params_tag@ == lit("<params>"),
            value@ == lit("<value>"),
            param_value@ == lit("<param><value>"),
            scan(rest.subrange(0, k - 2)) == Some((utf8_views(args@), encode_utf8(name@))),
        decreases lines@.len() - k,
    {
        let r = lines[k];
        assert(r == lines@[k as int]);
        let x = vstd::slice::slice_subrange(body, r.0, r.1);
        assert(x@ == ls[k as int]);
        assert(rest.subrange(0, k - 1).drop_last() =~= rest.subrange(0, k - 2));
        assert(rest.subrange(0, k - 1).last() == ls[k as int]);
        let ghost before_args = utf8_views(args@);
        let ghost before_name = encode_utf8(name@);
        let ok = read_line(
            body_str,
            r.0,
            x,
            &open_ac,
            &close_ac,
            name_tag.as_slice(),
            params_tag.as_slice(),
            value.as_slice(),
            param_value.as_slice(),
            &mut args,
            &mut name,
        );
        if !ok {
            proof {
                assert(scan(rest.subrange(0, k - 1)) is None);
                lemma_scan_none_extends(rest, k - 1);
                assert(rest.subrange(0, rest.len() as int) =~= rest);
            }
            return vec!["Invalid XML-RPC, check server output".to_owned()];
        }
        k = k + 1;
    }
    assert(rest.subrange(0, rest.len() as int) =~= rest);
    let ghost final_args = utf8_views(args@);
    args.push(name);
    assert(utf8_views(args@) =~= final_args.push(encode_utf8(name@)));
    args
}


/// The declaration line that opens a method call.
pub open spec fn decl_line() -> Seq<u8> {
    lit("<?xml version=\"1.0\" encoding=\"UTF-8\"?>")
}

/// The line that names the method of a call.
pub open spec fn name_line(m: Seq<u8>) -> Seq<u8> {
    lit("<methodName>") + m + lit("</methodName>")
}

/// The line of a string parameter.
pub open spec fn string_param_line(v: Seq<u8>) -> Seq<u8> {
    lit("<param><value><string>") + v + lit("</string></value></param>")
}

/// The lines of a method call whose parameters are all strings, one
/// parameter to a line, as the server writes it.
pub open spec fn string_call_lines(m: Seq<u8>, vs: Seq<Seq<u8>>) -> Seq<Seq<u8>> {
    seq![decl_line(), lit("<methodCall>"), name_line(m), lit("<params>")]
        + vs.map_values(|v: Seq<u8>| string_param_line(v))
        + seq![lit("</params>"), lit("</methodCall>")]
}

/// The text of such a call: its lines joined by line feeds.
pub open spec fn string_call(m: Seq<u8>, vs: Seq<Seq<u8>>) -> Seq<u8> {
    join(string_call_lines(m, vs), newline())
}

/// The second byte of every opening tag is a letter of a type name, and
/// that of every closing tag is `/`.
proof fn lemma_tag_second_bytes()
    ensures
        forall|k: int|
            0 <= k < open_tags().len() ==> {
                &&& (#[trigger] open_tags()[k]).len() >= 2
                &&& open_tags()[k][1] != 47u8
                &&& open_tags()[k][1] != 112u8
                &&& open_tags()[k][1] != 118u8
            },
        forall|k: int|
            0 <= k < close_tags().len() ==> (#[trigger] close_tags()[k]).len() >= 2
                && close_tags()[k][1] == 47u8,
{
    reveal_strlit("<string>");
    reveal_strlit("<boolean>");
    reveal_strlit("<i4>");
    reveal_strlit("<struct>");
    reveal_strlit("</string>");
    reveal_strlit("</boolean>");
    reveal_strlit("</i4>");
    reveal_strlit("</struct>");
    lemma_lit_ascii("<string>");
    lemma_lit_ascii("<boolean>");
    lemma_lit_ascii("<i4>");
    lemma_lit_ascii("<struct>");
    lemma_lit_ascii("</string>");
    lemma_lit_ascii("</boolean>");
    lemma_lit_ascii("</i4>");
    lemma_lit_ascii("</struct>");
}

/// The bytes of a string parameter line, by position.
proof fn lemma_param_line_bytes(v: Seq<u8>)
    ensures
        string_param_line(v).len() == 47 + v.len(),
        lit("<param><value><string>").len() == 22,
        lit("</string></value></param>").len() == 25,
        forall|i: int|
            0 <= i < 22 ==> #[trigger] string_param_line(v)[i] == lit("<param><value><string>")[i],
        forall|i: int|
            22 <= i < 22 + v.len() ==> #[trigger] string_param_line(v)[i] == v[i - 22],
        forall|i: int|
            22 + v.len() <= i < 47 + v.len() ==> #[trigger] string_param_line(v)[i] == lit(
                "</string></value></param>",
            )[i - 22 - v.len()],
{
    reveal_strlit("<param><value><string>");
    reveal_strlit("</string></value></param>");
    lemma_lit_ascii("<param><value><string>");
    lemma_lit_ascii("</string></value></param>");
}

/// In a string parameter line the first opening tag is `<string>`, right
/// after `<param><value>`.
proof fn lemma_param_line_open(v: Seq<u8>)
    requires
        lacks(v, 60u8),
    ensures
        first_tag(string_param_line(v), open_tags()) == Some((14int, 22int)),
{
    let a = lit("<param><value><string>");
    let x = string_param_line(v);
    reveal_strlit("<param><value><string>");
    reveal_strlit("<string>");
    lemma_lit_ascii("<param><value><string>");
    lemma_lit_ascii("<string>");
    lemma_param_line_bytes(v);
    lemma_tag_shapes();
    lemma_tag_second_bytes();
    assert(x.subrange(14, 22) =~= open_tags()[0]);
    assert(tag_at(x, open_tags(), 14, 22));
    assert forall|s2: int, e2: int| tag_at(x, open_tags(), s2, e2) implies 22 <= e2 by {
        lemma_tag_ends(x, open_tags(), s2, e2);
        let k = choose|k: int|
            0 <= k < open_tags().len() && e2 == s2 + open_tags()[k].len() && occurs_at(
                x,
                open_tags()[k],
                s2,
            );
        assert(x.subrange(s2, e2)[1] == x[s2 + 1]);
        if e2 < 22 {
            assert(x[s2] == a[s2]);
            assert(x[e2 - 1] == a[e2 - 1]);
            assert(x[s2 + 1] == a[s2 + 1]);
        }
    }
    lemma_first_tag_is(x, open_tags(), 14, 22);
}

/// In a string parameter line whose text holds no `<`, the first closing
/// tag is the `</string>` right after the text.
proof fn lemma_param_line_close(v: Seq<u8>)
    requires
        lacks(v, 60u8),
    ensures
        first_tag(string_param_line(v), close_tags()) == Some(
            (22 + v.len() as int, 31 + v.len() as int),
        ),
{
    let a = lit("<param><value><string>");
    let b = lit("</string></value></param>");
    let x = string_param_line(v);
    let n = v.len() as int;
    reveal_strlit("<param><value><string>");
    reveal_strlit("</string></value></param>");
    reveal_strlit("</string>");
    lemma_lit_ascii("<param><value><string>");
    lemma_lit_ascii("</string></value></param>");
    lemma_lit_ascii("</string>");
    lemma_param_line_bytes(v);
    lemma_tag_shapes();
    lemma_tag_second_bytes();
    assert(x.subrange(22 + n, 31 + n) =~= close_tags()[0]);
    assert(tag_at(x, close_tags(), 22 + n, 31 + n));
    assert forall|s2: int, e2: int| tag_at(x, close_tags(), s2, e2) implies 31 + n <= e2 by {
        lemma_tag_ends(x, close_tags(), s2, e2);
        let k = choose|k: int|
            0 <= k < close_tags().len() && e2 == s2 + close_tags()[k].len() && occurs_at(
                x,
                close_tags()[k],
                s2,
            );
        assert(x.subrange(s2, e2)[1] == x[s2 + 1]);
        if e2 < 31 + n {
            if s2 < 22 {
                assert(x[s2] == a[s2]);
                assert(x[s2 + 1] == a[s2 + 1]);
            } else if s2 < 22 + n {
                assert(x[s2] == v[s2 - 22]);
            } else {
                assert(x[s2] == b[s2 - 22 - n]);
                assert(x[e2 - 1] == b[e2 - 1 - 22 - n]);
            }
        }
    }
    lemma_first_tag_is(x, close_tags(), 22 + n, 31 + n);
}

/// A string parameter line adds exactly its text to the values, empty or
/// not.
proof fn lemma_string_param_step(v: Seq<u8>, args: Seq<Seq<u8>>, name: Seq<u8>)
    requires
        lacks(v, 60u8),
    ensures
        value_args(string_param_line(v), args) == Some(args.push(v)),
        line_step(string_param_line(v), args, name) == Some((args.push(v), name)),
{
    reveal(line_step);
    let x = string_param_line(v);
    let n = v.len() as int;
    reveal_strlit("<param><value><string>");
    reveal_strlit("<methodName>");
    reveal_strlit("<params>");
    reveal_strlit("<param><value>");
    lemma_lit_ascii("<param><value><string>");
    lemma_lit_ascii("<methodName>");
    lemma_lit_ascii("<params>");
    lemma_lit_ascii("<param><value>");
    lemma_param_line_bytes(v);
    assert(x.subrange(0, 12)[1] != lit("<methodName>")[1]);
    assert(!starts_with(x, lit("<methodName>")));
    assert(x.subrange(0, 8)[6] != lit("<params>")[6]);
    assert(!starts_with(x, lit("<params>")));
    assert(x.subrange(0, 14) =~= lit("<param><value>"));
    assert(starts_with(x, lit("<param><value>")));
    lemma_param_line_open(v);
    lemma_param_line_close(v);
    assert(x.subrange(22, 22 + n) =~= v);
}

/// A method-name line whose name holds no `<` sets the name to it and adds
/// no value.
proof fn lemma_name_step(m: Seq<u8>, args: Seq<Seq<u8>>, name: Seq<u8>)
    requires
        lacks(m, 60u8),
    ensures
        line_step(name_line(m), args, name) == Some((args, name + m)),
{
    reveal(line_step);
    let x = name_line(m);
    let n = m.len() as int;
    let a = lit("<methodName>");
    let c = lit("</methodName>");
    reveal_strlit("<methodName>");
    reveal_strlit("</methodName>");
    reveal_strlit("<value>");
    reveal_strlit("<param><value>");
    lemma_lit_ascii("<methodName>");
    lemma_lit_ascii("</methodName>");
    lemma_lit_ascii("<value>");
    lemma_lit_ascii("<param><value>");
    assert(x.len() == 25 + n);
    assert forall|i: int| 0 <= i < 12 implies #[trigger] x[i] == a[i] by {}
    assert forall|i: int| 12 <= i < 12 + n implies #[trigger] x[i] == m[i - 12] by {}
    assert forall|i: int| 12 + n <= i < 25 + n implies #[trigger] x[i] == c[i - 12 - n] by {}
    assert(x.subrange(0, 12) =~= a);
    lemma_last_index(x, 60u8);
    let e = last_index(x, 60u8);
    assert(x[12 + n] == 60u8);
    if e > 12 + n {
        assert(x[e] == c[e - 12 - n]);
    }
    assert(e == 12 + n);
    assert(x.subrange(0, 14)[1] != lit("<param><value>")[1]);
    assert(!starts_with(x, lit("<param><value>")));
    assert forall|i: int| !occurs_at(x, lit("<value>"), i) by {
        if occurs_at(x, lit("<value>"), i) {
            assert(x.subrange(i, i + 7)[0] == x[i]);
            assert(x.subrange(i, i + 7)[1] == x[i + 1]);
            if i < 12 {
            } else if i < 12 + n {
                assert(x[i] == m[i - 12]);
            } else {
            }
        }
    }
    assert(!contains(x, lit("<value>")));
    assert(x.subrange(12, 12 + n) =~= m);
}

/// The `<params>` line changes nothing.
proof fn lemma_params_step(args: Seq<Seq<u8>>, name: Seq<u8>)
    ensures
        line_step(lit("<params>"), args, name) == Some((args, name)),
{
    reveal(line_step);
    reveal_strlit("<params>");
    reveal_strlit("<methodName>");
    lemma_lit_ascii("<params>");
    lemma_lit_ascii("<methodName>");
    assert(lit("<params>").subrange(0, 8) =~= lit("<params>"));
}

/// A line that is a closing tag changes nothing.
proof fn lemma_closing_step(t: &str, args: Seq<Seq<u8>>, name: Seq<u8>)
    requires
        t == "</params>" || t == "</methodCall>",
    ensures
        line_step(lit(t), args, name) == Some((args, name)),
{
    reveal(line_step);
    reveal_strlit("</params>");
    reveal_strlit("</methodCall>");
    reveal_strlit("<params>");
    reveal_strlit("<methodName>");
    reveal_strlit("<value>");
    reveal_strlit("<param><value>");
    lemma_lit_ascii("</params>");
    lemma_lit_ascii("</methodCall>");
    lemma_lit_ascii("<params>");
    lemma_lit_ascii("<methodName>");
    lemma_lit_ascii("<value>");
    lemma_lit_ascii("<param><value>");
    let x = lit(t);
    if x.len() >= 12 {
        assert(x.subrange(0, 12)[1] != lit("<methodName>")[1]);
    }
    assert(x.subrange(0, 8)[1] != lit("<params>")[1]);
    assert forall|i: int| !occurs_at(x, lit("<value>"), i) by {
        if occurs_at(x, lit("<value>"), i) {
            assert(x.subrange(i, i + 7)[0] == x[i]);
            assert(x.subrange(i, i + 7)[1] == x[i + 1]);
        }
    }
}

/// The name line, the `<params>` line and string parameter lines read
/// into those strings and that name.
proof fn lemma_scan_string_params(m: Seq<u8>, vs: Seq<Seq<u8>>)
    requires
        lacks(m, 60u8),
        forall|k: int| 0 <= k < vs.len() ==> lacks(#[trigger] vs[k], 60u8),
    ensures
        scan(
            seq![name_line(m), lit("<params>")] + vs.map_values(
                |v: Seq<u8>| string_param_line(v),
            ),
        ) == Some((vs, m)),
    decreases vs.len(),
{
    let lines = seq![name_line(m), lit("<params>")] + vs.map_values(
        |v: Seq<u8>| string_param_line(v),
    );
    if vs.len() == 0 {
        let head = seq![name_line(m), lit("<params>")];
        assert(lines =~= head);
        assert(head.drop_last().drop_last() =~= Seq::<Seq<u8>>::empty());
        lemma_name_step(m, Seq::empty(), Seq::empty());
        assert(Seq::<u8>::empty() + m =~= m);
        lemma_params_step(Seq::empty(), m);
        let one = head.drop_last();
        assert(one.last() == name_line(m));
        assert(scan(one.drop_last()) == Some((Seq::<Seq<u8>>::empty(), Seq::<u8>::empty())));
        assert(scan(head.drop_last()) == Some((Seq::<Seq<u8>>::empty(), m)));
    } else {
        let init = vs.drop_last();
        assert forall|k: int| 0 <= k < init.len() implies lacks(#[trigger] init[k], 60u8) by {
            assert(init[k] == vs[k]);
        }
        lemma_scan_string_params(m, init);
        assert(lines.drop_last() =~= seq![name_line(m), lit("<params>")] + init.map_values(
            |v: Seq<u8>| string_param_line(v),
        ));
        assert(lines.last() == string_param_line(vs.last()));
        assert(lacks(vs[vs.len() - 1], 60u8));
        lemma_string_param_step(vs.last(), init, m);
        assert(init.push(vs.last()) =~= vs);
    }
}

/// Every line of a call whose name and values hold no line feed holds
/// none either.
proof fn lemma_string_call_lines_lack(m: Seq<u8>, vs: Seq<Seq<u8>>)
    requires
        lacks(m, 10u8),
        forall|k: int| 0 <= k < vs.len() ==> lacks(#[trigger] vs[k], 10u8),
    ensures
        forall|k: int|
            0 <= k < string_call_lines(m, vs).len() ==> lacks(
                #[trigger] string_call_lines(m, vs)[k],
                10u8,
            ),
{
    let ls = string_call_lines(m, vs);
    reveal_strlit("<?xml version=\"1.0\" encoding=\"UTF-8\"?>");
    reveal_strlit("<methodCall>");
    reveal_strlit("<methodName>");
    reveal_strlit("</methodName>");
    reveal_strlit("<params>");
    reveal_strlit("<param><value><string>");
    reveal_strlit("</string></value></param>");
    reveal_strlit("</params>");
    reveal_strlit("</methodCall>");
    lemma_lit_lacks_line_feed("<?xml version=\"1.0\" encoding=\"UTF-8\"?>");
    lemma_lit_lacks_line_feed("<methodCall>");
    lemma_lit_lacks_line_feed("<methodName>");
    lemma_lit_lacks_line_feed("</methodName>");
    lemma_lit_lacks_line_feed("<params>");
    lemma_lit_lacks_line_feed("<param><value><string>");
    lemma_lit_lacks_line_feed("</string></value></param>");
    lemma_lit_lacks_line_feed("</params>");
    lemma_lit_lacks_line_feed("</methodCall>");
    lemma_lit_ascii("<methodName>");
    lemma_lit_ascii("</methodName>");
    let n = vs.len() as int;
    assert forall|k: int| 0 <= k < ls.len() implies lacks(#[trigger] ls[k], 10u8) by {
        if k == 2 {
            let x = name_line(m);
            assert forall|i: int| 0 <= i < x.len() implies x[i] != 10u8 by {
                if i < 12 {
                } else if i < 12 + m.len() {
                } else {
                    assert(x[i] == lit("</methodName>")[i - 12 - m.len()]);
                }
            }
        } else if 4 <= k < 4 + n {
            let v = vs[k - 4];
            assert(lacks(v, 10u8));
            let x = string_param_line(v);
            assert(ls[k] == x);
            lemma_param_line_bytes(v);
            assert forall|i: int| 0 <= i < x.len() implies x[i] != 10u8 by {
                if i < 22 {
                } else if i < 22 + v.len() {
                } else {
                    assert(x[i] == lit("</string></value></param>")[i - 22 - v.len()]);
                }
            }
        }
    }
}

/// A method call whose parameters are all strings reads into those strings,
/// each in its place, empty ones too, followed by the method name: one
/// value for each parameter line, the text between `<string>` and
/// `</string>`. The name and the strings must hold neither a line feed nor
/// a `<`.
pub proof fn lemma_parse_string_call(m: Seq<u8>, vs: Seq<Seq<u8>>)
    requires
        lacks(m, 10u8),
        lacks(m, 60u8),
        forall|k: int| 0 <= k < vs.len() ==> lacks(#[trigger] vs[k], 10u8) && lacks(vs[k], 60u8),
    ensures
        parse_spec(string_call(m, vs)) == vs.push(m),
        parse_spec(string_call(m, vs)).len() == vs.len() + 1,
{
    let ls = string_call_lines(m, vs);
    let msg = string_call(m, vs);
    let n = vs.len() as int;
    lemma_string_call_lines_lack(m, vs);
    assert forall|k: int| 0 <= k < ls.len() implies !contains(#[trigger] ls[k], newline()) by {
        lemma_lacks_contains(ls[k], 10u8);
    }
    lemma_split_join(ls, newline());
    reveal_strlit("<?xml version=\"1.0\" encoding=\"UTF-8\"?>");
    reveal_strlit("<?xml version=\"1.0\" encoding=\"UTF-8\"?><methodResponse>");
    reveal_strlit("<?xml");
    reveal_strlit("\\\u{1}\0\0\u{2}\0\0\0");
    lemma_lit_ascii("<?xml version=\"1.0\" encoding=\"UTF-8\"?>");
    lemma_lit_ascii("<?xml version=\"1.0\" encoding=\"UTF-8\"?><methodResponse>");
    lemma_lit_ascii("<?xml");
    lemma_lit_ascii("\\\u{1}\0\0\u{2}\0\0\0");
    // the text starts with the declaration, not with the transport prefix
    lemma_join_front(ls, newline());
    assert(msg[0] == decl_line()[0]);
    assert(msg.subrange(0, 8)[0] != transport_prefix()[0]);
    assert(!starts_with(msg, transport_prefix()));
    let lines = split(msg, newline());
    assert(lines == ls);
    assert(lines[0] == decl_line());
    assert(!starts_with(
        lines[0],
        lit("<?xml version=\"1.0\" encoding=\"UTF-8\"?><methodResponse>"),
    ));
    assert(decl_line().subrange(0, 5) =~= lit("<?xml"));
    assert(starts_with(lines[0], lit("<?xml")));
    assert(lines[1] == lit("<methodCall>"));
    assert(lit("<methodCall>").subrange(0, lit("<methodCall>").len() as int) =~= lit(
        "<methodCall>",
    ));
    // the rest: name, `<params>`, the parameters, and the two closing lines
    let head = seq![name_line(m), lit("<params>")] + vs.map_values(
        |v: Seq<u8>| string_param_line(v),
    );
    let rest = lines.subrange(2, lines.len() as int);
    assert(rest =~= head + seq![lit("</params>"), lit("</methodCall>")]);
    assert(rest.drop_last().drop_last() =~= head);
    assert(rest.drop_last().last() == lit("</params>"));
    assert(rest.last() == lit("</methodCall>"));
    assert forall|k: int| 0 <= k < vs.len() implies lacks(#[trigger] vs[k], 60u8) by {}
    lemma_scan_string_params(m, vs);
    lemma_closing_step("</params>", vs, m);
    lemma_closing_step("</methodCall>", vs, m);
    assert(scan(rest.drop_last()) == Some((vs, m)));
    assert(scan(rest) == Some((vs, m)));
}

proof fn lemma_scan_lacks(lines: Seq<Seq<u8>>)
    requires
        forall|k: int| 0 <= k < lines.len() ==> lacks(#[trigger] lines[k], 10u8),
    ensures
        scan(lines) matches Some(st) ==> lacks(st.1, 10u8) && forall|j: int|
            0 <= j < st.0.len() ==> lacks(#[trigger] st.0[j], 10u8),
    decreases lines.len(),
{
    reveal(line_step);
    if lines.len() > 0 {
        let init = lines.drop_last();
        assert forall|k: int| 0 <= k < init.len() implies lacks(#[trigger] init[k], 10u8) by {
            assert(init[k] == lines[k]);
        }
        lemma_scan_lacks(init);
        let x = lines.last();
        assert(lacks(lines[lines.len() - 1], 10u8));
        match scan(init) {
            Some(st) => {
                let args = st.0;
                match value_args(x, args) {
                    Some(a) => {
                        assert forall|j: int| 0 <= j < a.len() implies lacks(#[trigger] a[j], 10u8) by {
                            if j < args.len() {
                                assert(a[j] == args[j]);
                            }
                        }
                        if starts_with(x, lit("<methodName>")) {
                            let e = last_index(x, 60u8);
                            if e >= lit("<methodName>").len() {
                                let piece = x.subrange(lit("<methodName>").len() as int, e);
                                lemma_last_index(x, 60u8);
                                assert forall|j: int| 0 <= j < piece.len() implies piece[j] != 10u8 by {
                                    assert(piece[j] == x[lit("<methodName>").len() + j]);
                                }
                                assert(lacks(st.1 + piece, 10u8));
                            }
                        }
                    },
                    None => {},
                }
            },
            None => {},
        }
    }
}

proof fn lemma_lit_lacks_line_feed(s: &str)
    requires
        is_ascii_chars(s@),
        forall|i: int| 0 <= i < s@.len() ==> s@[i] != '\n',
    ensures
        lacks(lit(s), 10u8),
{
    lemma_lit_ascii(s);
    assert forall|i: int| 0 <= i < lit(s).len() implies lit(s)[i] != 10u8 by {
        assert(lit(s)[i] == s@[i] as u8);
    }
}

/// No value or method name read from a callback holds a line feed.
pub proof fn lemma_parse_no_line_feed(message: Seq<u8>)
    ensures
        forall|k: int| 0 <= k < parse_spec(message).len() ==> lacks(#[trigger] parse_spec(message)[k], 10u8),
{
    reveal_strlit("Invalid XML-RPC");
    reveal_strlit("Invalid XML-RPC, check server output");
    lemma_lit_lacks_line_feed("Invalid XML-RPC");
    lemma_lit_lacks_line_feed("Invalid XML-RPC, check server output");
    let body = if starts_with(message, transport_prefix()) {
        message.subrange(transport_prefix().len() as int, message.len() as int)
    } else {
        message
    };
    let lines = split(body, newline());
    lemma_split_sep_lacks(body, 10u8);
    assert(newline() == seq![10u8]);
    if lines.len() >= 2 {
        let rest = lines.subrange(2, lines.len() as int);
        assert forall|k: int| 0 <= k < rest.len() implies lacks(#[trigger] rest[k], 10u8) by {
            assert(rest[k] == lines[k + 2]);
        }
        lemma_scan_lacks(rest);
    }
    let res = parse_spec(message);
    assert forall|k: int| 0 <= k < res.len() implies lacks(#[trigger] res[k], 10u8) by {
        if !starts_with(
            lines[0],
            lit("<?xml version=\"1.0\" encoding=\"UTF-8\"?><methodResponse>"),
        ) && starts_with(lines[0], lit("<?xml")) && lines.len() >= 2 && starts_with(
            lines[1],
            lit("<methodCall>"),
        ) {
            match scan(lines.subrange(2, lines.len() as int)) {
                Some(st) => {
                    assert(res == st.0.push(st.1));
                    if k < st.0.len() {
                        assert(res[k] == st.0[k]);
                    }
                },
                None => {},
            }
        }
    }
}

} // verus!
