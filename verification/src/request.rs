//! The minified request language and its expansion into XML-RPC.
//!
//! A minified request is a list of lines: `mc` opens the method call, `pa`
//! opens the parameters, `mn NAME` names the method and `paa va TYPE VALUE`
//! adds a parameter of type `str`, `bool` or `int`. Every other line is
//! ignored. `xform` turns such a text into the XML-RPC `methodCall` that
//! the server reads.
use vstd::prelude::*;
use crate::text::{
    lacks, lemma_join_front, lemma_join_split, lemma_lacks_contains, lemma_split_sep_lacks,
    chars_contains, chars_eq, chars_of, chars_split_ranges, chars_starts_with, contains, join,
    lemma_first_piece_keeps_prefix, lemma_not_contains_prepend, lemma_split_after_lead,
    lemma_split_after_prefix, lemma_split_join, lemma_split_len, occurs_at, piece_of, pieces,
    ranges_within, split, starts_with, views,
};

verus! {

/// What the first pass over the lines writes for one line.
pub open spec fn line_head(line: Seq<char>) -> Seq<char> {
    if line == "mc"@ {
        "<methodCall>"@
    } else if line == "pa"@ {
        "<params>"@
    } else if starts_with(line, "mn"@) {
        "<methodName>"@ + split(line, "mn "@)[1] + "</methodName>"@
    } else {
        Seq::empty()
    }
}

/// A line that adds a parameter.
pub open spec fn is_param_line(line: Seq<char>) -> bool {
    line != "mc"@ && line != "pa"@ && !starts_with(line, "mn"@) && starts_with(line, "paa va"@)
}

/// The parameter text that a line contributes, if it is a parameter line.
pub open spec fn line_param(line: Seq<char>) -> Option<Seq<char>> {
    if is_param_line(line) {
        Some(split(line, "paa va "@)[1])
    } else {
        None
    }
}

/// The concatenated output of the first pass over `lines`.
pub open spec fn heads(lines: Seq<Seq<char>>) -> Seq<char>
    decreases lines.len(),
{
    if lines.len() == 0 {
        Seq::empty()
    } else {
        heads(lines.drop_last()) + line_head(lines.last())
    }
}

/// The parameter texts collected by the first pass over `lines`.
pub open spec fn params_of(lines: Seq<Seq<char>>) -> Seq<Seq<char>>
    decreases lines.len(),
{
    if lines.len() == 0 {
        Seq::empty()
    } else {
        match line_param(lines.last()) {
            Some(p) => params_of(lines.drop_last()).push(p),
            None => params_of(lines.drop_last()),
        }
    }
}

/// The XML-RPC `param` element for one parameter text.
pub open spec fn param_xml(param: Seq<char>) -> Seq<char> {
    if starts_with(param, "str"@) {
        "<param><value><string>"@ + split(param, "str "@)[1] + "</string></value></param>"@
    } else if starts_with(param, "bool"@) && contains(param, "true"@) {
        "<param><value><boolean>1</boolean></value></param>"@
    } else if starts_with(param, "bool"@) && contains(param, "false"@) {
        "<param><value><boolean>0</boolean></value></param>"@
    } else if starts_with(param, "int"@) {
        "<param><value><i4>"@ + split(param, "int "@)[1] + "</i4></value></param>"@
    } else {
        Seq::empty()
    }
}

/// The concatenated `param` elements of a list of parameter texts.
pub open spec fn params_xml(params: Seq<Seq<char>>) -> Seq<char>
    decreases params.len(),
{
    if params.len() == 0 {
        Seq::empty()
    } else {
        params_xml(params.drop_last()) + param_xml(params.last())
    }
}

/// The XML-RPC text of a minified request.
pub open spec fn xform_spec(minified: Seq<char>) -> Seq<char> {
    let lines = split(minified, "\n"@);
    heads(lines) + params_xml(params_of(lines)) + "</params></methodCall>"@
}

/// A line can be expanded: a method line holds `mn ` and a parameter
/// line holds `paa va `.
pub open spec fn line_ok(line: Seq<char>) -> bool {
    &&& (line != "mc"@ && line != "pa"@ && starts_with(line, "mn"@)) ==> contains(line, "mn "@)
    &&& is_param_line(line) ==> contains(line, "paa va "@)
}

/// A parameter text can be expanded: a `str` parameter holds `str ` and
/// an `int` parameter holds `int `.
pub open spec fn param_ok(param: Seq<char>) -> bool {
    &&& starts_with(param, "str"@) ==> contains(param, "str "@)
    &&& (!starts_with(param, "str"@) && !(starts_with(param, "bool"@) && contains(param, "true"@))
        && !(starts_with(param, "bool"@) && contains(param, "false"@)) && starts_with(
        param,
        "int"@,
    )) ==> contains(param, "int "@)
}

/// The minified requests that `xform` expands without failing.
pub open spec fn xform_defined(minified: Seq<char>) -> bool {
    let lines = split(minified, "\n"@);
    &&& forall|k: int| 0 <= k < lines.len() ==> line_ok(#[trigger] lines[k])
    &&& forall|j: int|
        0 <= j < params_of(lines).len() ==> param_ok(#[trigger] params_of(lines)[j])
}


/// The second piece of `line.split(sep)`, where `line` is `src[a..b]` by
/// character positions and holds `sep`.
fn second_piece(src: &str, cs: &[char], a: usize, b: usize, sep: &[char]) -> (res: String)
    requires
        cs@ == src@,
        a <= b <= cs@.len(),
        sep@.len() > 0,
        contains(cs@.subrange(a as int, b as int), sep@),
    ensures
        res@ == split(cs@.subrange(a as int, b as int), sep@)[1],
{
    let line = vstd::slice::slice_subrange(cs, a, b);
    let rs = chars_split_ranges(line, sep);
    proof {
        lemma_split_len(line@, sep@);
    }
    let r = rs[1];
    assert(pieces(line@, rs@)[1] == line@.subrange(r.0 as int, r.1 as int));
    let res = piece_of(src, a + r.0, a + r.1);
    assert(res@ =~= line@.subrange(r.0 as int, r.1 as int));
    res
}

/// Whether a parameter text can be expanded.
fn param_is_ok(p: &str) -> (ok: bool)
    ensures
        ok == param_ok(p@),
{
    let pc = chars_of(p);
    let str_ = chars_of("str");
    let str_sep = chars_of("str ");
    let bool_ = chars_of("bool");
    let true_ = chars_of("true");
    let false_ = chars_of("false");
    let int_ = chars_of("int");
    let int_sep = chars_of("int ");
    let s = chars_starts_with(pc.as_slice(), str_.as_slice());
    if s && !chars_contains(pc.as_slice(), str_sep.as_slice()) {
        return false;
    }
    let b = chars_starts_with(pc.as_slice(), bool_.as_slice());
    let t = chars_contains(pc.as_slice(), true_.as_slice());
    let f = chars_contains(pc.as_slice(), false_.as_slice());
    let i = chars_starts_with(pc.as_slice(), int_.as_slice());
    if !s && !(b && t) && !(b && f) && i && !chars_contains(pc.as_slice(), int_sep.as_slice()) {
        return false;
    }
    true
}

/// Whether `xform` can expand a minified request without failing.
pub fn can_xform(minified: &str) -> (ok: bool)
    ensures
        ok == xform_defined(minified@),
{
    let cs = chars_of(minified);
    let nl = chars_of("\n");
    let mc = chars_of("mc");
    let pa = chars_of("pa");
    let mn = chars_of("mn");
    let mn_sep = chars_of("mn ");
    let paa_va = chars_of("paa va");
    let paa_va_sep = chars_of("paa va ");
    proof {
        reveal_strlit("\n");
        reveal_strlit("paa va ");
    }
    let lines = chars_split_ranges(cs.as_slice(), nl.as_slice());
    let ghost ls = split(minified@, "\n"@);
    let mut params: Vec<String> = Vec::new();
    let mut k: usize = 0;
    while k < lines.len()
        invariant
            cs@ == minified@,
            ls == split(minified@, "\n"@),
            pieces(cs@, lines@) == ls,
            ranges_within(lines@, cs@.len() as int),
            mc@ == "mc"@,
            pa@ == "pa"@,
            mn@ == "mn"@,
            mn_sep@ == "mn "@,
            paa_va@ == "paa va"@,
            paa_va_sep@ == "paa va "@,
            paa_va_sep@.len() > 0,
            k <= lines@.len(),
            forall|j: int| 0 <= j < k ==> line_ok(#[trigger] ls[j]),
            views(params@) == params_of(ls.take(k as int)),
        decreases lines@.len() - k,
    {
        let r = lines[k];
        assert(r == lines@[k as int]);
        let line = vstd::slice::slice_subrange(cs.as_slice(), r.0, r.1);
        assert(line@ == ls[k as int]);
        assert(ls.take(k + 1).drop_last() =~= ls.take(k as int));
        assert(ls.take(k + 1).last() == ls[k as int]);
        let is_mc = chars_eq(line, mc.as_slice());
        let is_pa = chars_eq(line, pa.as_slice());
        let is_mn = chars_starts_with(line, mn.as_slice());
        if !is_mc && !is_pa && is_mn && !chars_contains(line, mn_sep.as_slice()) {
            assert(!line_ok(ls[k as int]));
            return false;
        }
        let ghost before = params@;
        if !is_mc && !is_pa && !is_mn && chars_starts_with(line, paa_va.as_slice()) {
            if !chars_contains(line, paa_va_sep.as_slice()) {
                assert(!line_ok(ls[k as int]));
                return false;
            }
            let p = second_piece(minified, cs.as_slice(), r.0, r.1, paa_va_sep.as_slice());
            params.push(p);
            assert(views(params@) =~= views(before).push(p@));
        }
        k = k + 1;
    }
    assert(ls.take(lines@.len() as int) =~= ls);
    let mut j: usize = 0;
    while j < params.len()
        invariant
            ls == split(minified@, "\n"@),
            forall|i: int| 0 <= i < ls.len() ==> line_ok(#[trigger] ls[i]),
            views(params@) == params_of(ls),
            j <= params@.len(),
            forall|i: int| 0 <= i < j ==> param_ok(#[trigger] params_of(ls)[i]),
        decreases params@.len() - j,
    {
        assert(params@[j as int]@ == params_of(ls)[j as int]);
        if !param_is_ok(params[j].as_str()) {
            return false;
        }
        j = j + 1;
    }
    true
}

/// Expands a minified request into the XML-RPC `methodCall` text.
pub fn xform(minified: String) -> (res: String)
    requires
        xform_defined(minified@),
    ensures
        res@ == xform_spec(minified@),
{
    let src = minified.as_str();
    let cs = chars_of(src);
    let nl = chars_of("\n");
    let mc = chars_of("mc");
    let pa = chars_of("pa");
    let mn = chars_of("mn");
    let mn_sep = chars_of("mn ");
    let paa_va = chars_of("paa va");
    let paa_va_sep = chars_of("paa va ");
    proof {
        reveal_strlit("\n");
        reveal_strlit("mn ");
        reveal_strlit("paa va ");
        reveal_strlit("str ");
        reveal_strlit("int ");
    }
    let lines = chars_split_ranges(cs.as_slice(), nl.as_slice());
    let ghost ls = split(minified@, "\n"@);
    assert(pieces(cs@, lines@) == ls);
    let mut lang = String::new();
    let mut params: Vec<String> = Vec::new();
    let mut k: usize = 0;
    while k < lines.len()
        invariant
            cs@ == src@,
            src@ == minified@,
            ls == split(minified@, "\n"@),
            pieces(cs@, lines@) == ls,
            ranges_within(lines@, cs@.len() as int),
            xform_defined(minified@),
            mc@ == "mc"@,
            pa@ == "pa"@,
            mn@ == "mn"@,
            mn_sep@ == "mn "@,
            mn_sep@.len() > 0,
            paa_va_sep@.len() > 0,
            paa_va@ == "paa va"@,
            paa_va_sep@ == "paa va "@,
            k <= lines@.len(),
            lang@ == heads(ls.take(k as int)),
            views(params@) == params_of(ls.take(k as int)),
        decreases lines@.len() - k,
    {
        let r = lines[k];
        assert(r == lines@[k as int]);
        let line = vstd::slice::slice_subrange(cs.as_slice(), r.0, r.1);
        assert(line@ == ls[k as int]);
        assert(line_ok(ls[k as int]));
        assert(ls.take(k + 1).drop_last() =~= ls.take(k as int));
        assert(ls.take(k + 1).last() == ls[k as int]);
        let ghost before = params@;
        if chars_eq(line, mc.as_slice()) {
            lang.append("<methodCall>");
        } else if chars_eq(line, pa.as_slice()) {
            lang.append("<params>");
        } else if chars_starts_with(line, mn.as_slice()) {
            let name = second_piece(src, cs.as_slice(), r.0, r.1, mn_sep.as_slice());
            lang.append("<methodName>");
            lang.append(name.as_str());
            lang.append("</methodName>");
        } else if chars_starts_with(line, paa_va.as_slice()) {
            let p = second_piece(src, cs.as_slice(), r.0, r.1, paa_va_sep.as_slice());
            params.push(p);
            assert(views(params@) =~= views(before).push(p@));
        }
        k = k + 1;
    }
    assert(ls.take(lines@.len() as int) =~= ls);
    let ghost ps = params_of(ls);
    let str_ = chars_of("str");
    let str_sep = chars_of("str ");
    let bool_ = chars_of("bool");
    let true_ = chars_of("true");
    let false_ = chars_of("false");
    let int_ = chars_of("int");
    let int_sep = chars_of("int ");
    let mut j: usize = 0;
    while j < params.len()
        invariant
            ps == params_of(split(minified@, "\n"@)),
            views(params@) == ps,
            xform_defined(minified@),
            str_@ == "str"@,
            str_sep@ == "str "@,
            bool_@ == "bool"@,
            true_@ == "true"@,
            false_@ == "false"@,
            int_@ == "int"@,
            int_sep@ == "int "@,
            str_sep@.len() > 0,
            int_sep@.len() > 0,
            j <= params@.len(),
            lang@ == heads(split(minified@, "\n"@)) + params_xml(ps.take(j as int)),
        decreases params@.len() - j,
    {
        let p = params[j].as_str();
        let pc = chars_of(p);
        assert(pc@ == ps[j as int]);
        assert(param_ok(ps[j as int]));
        assert(ps.take(j + 1).drop_last() =~= ps.take(j as int));
        assert(ps.take(j + 1).last() == ps[j as int]);
        assert(pc@.subrange(0, pc@.len() as int) =~= pc@);
        let ghost before = lang@;
        if chars_starts_with(pc.as_slice(), str_.as_slice()) {
            let v = second_piece(p, pc.as_slice(), 0, pc.len(), str_sep.as_slice());
            lang.append("<param><value><string>");
            lang.append(v.as_str());
            lang.append("</string></value></param>");
        } else if chars_starts_with(pc.as_slice(), bool_.as_slice()) && chars_contains(
            pc.as_slice(),
            true_.as_slice(),
        ) {
            lang.append("<param><value><boolean>1</boolean></value></param>");
        } else if chars_starts_with(pc.as_slice(), bool_.as_slice()) && chars_contains(
            pc.as_slice(),
            false_.as_slice(),
        ) {
            lang.append("<param><value><boolean>0</boolean></value></param>");
        } else if chars_starts_with(pc.as_slice(), int_.as_slice()) {
            let v = second_piece(p, pc.as_slice(), 0, pc.len(), int_sep.as_slice());
            lang.append("<param><value><i4>");
            lang.append(v.as_str());
            lang.append("</i4></value></param>");
        }
        assert(lang@ =~= before + param_xml(ps[j as int]));
        j = j + 1;
    }
    assert(ps.take(params@.len() as int) =~= ps);
    lang.append("</params></methodCall>");
    lang
}

/// The bytes that go on the wire for a request text: its UTF-8 encoding.
pub fn cram(toCram: String) -> (res: Vec<u8>)
    ensures
        res@ == vstd::utf8::encode_utf8(toCram@),
{
    toCram.as_str().as_bytes_vec()
}


/// A parameter of a request, as the minified language writes it.
pub enum Param {
    Str(Seq<char>),
    Bool(bool),
    Int(Seq<char>),
}

/// The text of a parameter after `paa va `.
pub open spec fn param_text(p: Param) -> Seq<char> {
    match p {
        Param::Str(v) => "str "@ + v,
        Param::Bool(b) => if b {
            "bool true"@
        } else {
            "bool false"@
        },
        Param::Int(v) => "int "@ + v,
    }
}

/// The lines of the minified request for a method call, in the layout the
/// controller writes them: an empty line, `mc`, `mn NAME`, `pa`, then one
/// `paa va` line per parameter.
pub open spec fn request_lines(method: Seq<char>, params: Seq<Param>) -> Seq<Seq<char>> {
    seq![Seq::<char>::empty(), "mc"@, "mn "@ + method, "pa"@] + params.map_values(
        |p: Param| "paa va "@ + param_text(p),
    )
}

/// The minified request for a method call.
pub open spec fn minify(method: Seq<char>, params: Seq<Param>) -> Seq<char> {
    join(request_lines(method, params), "\n"@)
}

/// The XML-RPC `param` element of a parameter.
pub open spec fn param_element(p: Param) -> Seq<char> {
    match p {
        Param::Str(v) => "<param><value><string>"@ + v + "</string></value></param>"@,
        Param::Bool(b) => if b {
            "<param><value><boolean>1</boolean></value></param>"@
        } else {
            "<param><value><boolean>0</boolean></value></param>"@
        },
        Param::Int(v) => "<param><value><i4>"@ + v + "</i4></value></param>"@,
    }
}

/// The concatenated `param` elements of a list of parameters.
pub open spec fn param_elements(params: Seq<Param>) -> Seq<char>
    decreases params.len(),
{
    if params.len() == 0 {
        Seq::empty()
    } else {
        param_elements(params.drop_last()) + param_element(params.last())
    }
}

/// The XML-RPC `methodCall` document for a method call.
pub open spec fn method_call(method: Seq<char>, params: Seq<Param>) -> Seq<char> {
    "<methodCall><methodName>"@ + method + "</methodName><params>"@ + param_elements(params)
        + "</params></methodCall>"@
}

/// A value that survives the minified layout: it holds no line break, no
/// `paa va ` and not the marker of its own type.
pub open spec fn plain_value(v: Seq<char>, marker: Seq<char>) -> bool {
    !contains(v, "\n"@) && !contains(v, marker) && !contains(v, "paa va "@)
}

/// The method calls whose minified request `xform` reads back exactly.
pub open spec fn request_fits(method: Seq<char>, params: Seq<Param>) -> bool {
    &&& !contains(method, "\n"@)
    &&& !contains(method, "mn "@)
    &&& forall|k: int|
        0 <= k < params.len() ==> match #[trigger] params[k] {
            Param::Str(v) => plain_value(v, "str "@),
            Param::Int(v) => plain_value(v, "int "@),
            Param::Bool(_) => true,
        }
}

proof fn lemma_first_differs(s: Seq<char>, p: Seq<char>)
    requires
        s.len() > 0,
        p.len() > 0,
        s[0] != p[0],
    ensures
        !starts_with(s, p),
        s != p,
{
    if starts_with(s, p) {
        assert(s.subrange(0, p.len() as int)[0] == s[0]);
    }
}

proof fn lemma_heads_append(a: Seq<Seq<char>>, b: Seq<Seq<char>>)
    ensures
        heads(a + b) == heads(a) + heads(b),
        params_of(a + b) == params_of(a) + params_of(b),
    decreases b.len(),
{
    if b.len() == 0 {
        assert(a + b =~= a);
    } else {
        lemma_heads_append(a, b.drop_last());
        assert((a + b).drop_last() =~= a + b.drop_last());
        assert((a + b).last() == b.last());
    }
}

/// Facts about one parameter line of a request that fits.
proof fn lemma_param_line(p: Param)
    requires
        match p {
            Param::Str(v) => plain_value(v, "str "@),
            Param::Int(v) => plain_value(v, "int "@),
            Param::Bool(_) => true,
        },
    ensures
        !contains("paa va "@ + param_text(p), "\n"@),
        line_head("paa va "@ + param_text(p)) == Seq::<char>::empty(),
        line_param("paa va "@ + param_text(p)) == Some(param_text(p)),
        line_ok("paa va "@ + param_text(p)),
        param_ok(param_text(p)),
        param_xml(param_text(p)) == param_element(p),
{
    reveal_strlit("paa va ");
    reveal_strlit("\n");
    reveal_strlit("mc");
    reveal_strlit("pa");
    reveal_strlit("mn");
    reveal_strlit("paa va");
    reveal_strlit("str");
    reveal_strlit("str ");
    reveal_strlit("int");
    reveal_strlit("int ");
    reveal_strlit("bool");
    reveal_strlit("true");
    reveal_strlit("false");
    reveal_strlit("bool true");
    reveal_strlit("bool false");
    let t = param_text(p);
    let line = "paa va "@ + t;
    let e = Seq::<char>::empty();
    match p {
        Param::Str(v) => {
            lemma_not_contains_prepend("str "@, v, "\n"@);
            lemma_not_contains_prepend("str "@, v, "paa va "@);
            lemma_split_after_prefix("str "@, v);
            assert(starts_with(t, "str"@)) by {
                assert(t.subrange(0, 3) =~= "str"@);
            }
            assert(contains(t, "str "@)) by {
                assert(t.subrange(0, 4) =~= "str "@);
                assert(occurs_at(t, "str "@, 0));
            }
        },
        Param::Int(v) => {
            lemma_not_contains_prepend("int "@, v, "\n"@);
            lemma_not_contains_prepend("int "@, v, "paa va "@);
            lemma_split_after_prefix("int "@, v);
            lemma_first_differs(t, "str"@);
            lemma_first_differs(t, "bool"@);
            assert(starts_with(t, "int"@)) by {
                assert(t.subrange(0, 3) =~= "int"@);
            }
            assert(contains(t, "int "@)) by {
                assert(t.subrange(0, 4) =~= "int "@);
                assert(occurs_at(t, "int "@, 0));
            }
        },
        Param::Bool(b) => {
            assert(t + e =~= t);
            lemma_not_contains_prepend(t, e, "\n"@);
            lemma_not_contains_prepend(t, e, "paa va "@);
            lemma_first_differs(t, "str"@);
            lemma_first_differs(t, "int"@);
            assert(starts_with(t, "bool"@)) by {
                assert(t.subrange(0, 4) =~= "bool"@);
            }
            if b {
                assert(t.subrange(5, 9) =~= "true"@);
                assert(occurs_at(t, "true"@, 5));
            } else {
                lemma_not_contains_prepend(t, e, "true"@);
                assert(t.subrange(5, 10) =~= "false"@);
                assert(occurs_at(t, "false"@, 5));
            }
        },
    }
    lemma_not_contains_prepend("paa va "@, t, "\n"@);
    lemma_split_after_prefix("paa va "@, t);
    lemma_first_differs(line, "mc"@);
    lemma_first_differs(line, "mn"@);
    assert(line != "pa"@) by {
        assert(line.len() != "pa"@.len());
    }
    assert(starts_with(line, "paa va"@)) by {
        assert(line.subrange(0, 6) =~= "paa va"@);
    }
    assert(contains(line, "paa va "@)) by {
        assert(line.subrange(0, 7) =~= "paa va "@);
        assert(occurs_at(line, "paa va "@, 0));
    }
}

/// Facts about the parameter lines of a request that fits.
proof fn lemma_param_lines(params: Seq<Param>)
    requires
        forall|k: int|
            0 <= k < params.len() ==> match #[trigger] params[k] {
                Param::Str(v) => plain_value(v, "str "@),
                Param::Int(v) => plain_value(v, "int "@),
                Param::Bool(_) => true,
            },
    ensures
        ({
            let lines = params.map_values(|p: Param| "paa va "@ + param_text(p));
            &&& heads(lines) == Seq::<char>::empty()
            &&& params_of(lines) == params.map_values(|p: Param| param_text(p))
            &&& params_xml(params_of(lines)) == param_elements(params)
            &&& forall|k: int| 0 <= k < lines.len() ==> line_ok(#[trigger] lines[k]) && !contains(lines[k], "\n"@)
            &&& forall|j: int| 0 <= j < params_of(lines).len() ==> param_ok(#[trigger] params_of(lines)[j])
        }),
    decreases params.len(),
{
    let lines = params.map_values(|p: Param| "paa va "@ + param_text(p));
    if params.len() == 0 {
        assert(lines =~= Seq::<Seq<char>>::empty());
        assert(params.map_values(|p: Param| param_text(p)) =~= Seq::<Seq<char>>::empty());
    } else {
        let init = params.drop_last();
        let last = params.last();
        assert forall|k: int| 0 <= k < init.len() implies match #[trigger] init[k] {
            Param::Str(v) => plain_value(v, "str "@),
            Param::Int(v) => plain_value(v, "int "@),
            Param::Bool(_) => true,
        } by {
            assert(init[k] == params[k]);
        }
        lemma_param_lines(init);
        assert(params[params.len() - 1] == last);
        lemma_param_line(last);
        let init_lines = init.map_values(|p: Param| "paa va "@ + param_text(p));
        assert(lines.drop_last() =~= init_lines);
        assert(lines.last() == "paa va "@ + param_text(last));
        assert(params.map_values(|p: Param| param_text(p)) =~= init.map_values(
            |p: Param| param_text(p),
        ).push(param_text(last)));
        let ps = params_of(lines);
        assert(ps.drop_last() =~= params_of(init_lines));
        assert(ps.last() == param_text(last));
        assert forall|k: int| 0 <= k < lines.len() implies line_ok(#[trigger] lines[k]) && !contains(lines[k], "\n"@) by {
            if k < lines.len() - 1 {
                assert(lines[k] == init_lines[k]);
            }
        }
        assert forall|j: int| 0 <= j < ps.len() implies param_ok(#[trigger] ps[j]) by {
            if j < ps.len() - 1 {
                assert(ps[j] == params_of(init_lines)[j]);
            }
        }
    }
}

/// `xform` reads back every method call written in the minified layout:
/// the XML-RPC document it produces names the method and lists the
/// parameters in order, each as the element of its type.
pub proof fn lemma_xform_request(method: Seq<char>, params: Seq<Param>)
    requires
        request_fits(method, params),
    ensures
        xform_defined(minify(method, params)),
        xform_spec(minify(method, params)) == method_call(method, params),
{
    reveal_strlit("\n");
    reveal_strlit("mc");
    reveal_strlit("pa");
    reveal_strlit("mn");
    reveal_strlit("mn ");
    reveal_strlit("paa va");
    let e = Seq::<char>::empty();
    let fixed = seq![e, "mc"@, "mn "@ + method, "pa"@];
    let plines = params.map_values(|p: Param| "paa va "@ + param_text(p));
    let lines = request_lines(method, params);
    assert(lines == fixed + plines);
    lemma_param_lines(params);
    lemma_not_contains_prepend("mn "@, method, "\n"@);
    lemma_split_after_prefix("mn "@, method);
    let mline = "mn "@ + method;
    assert(starts_with(mline, "mn"@)) by {
        assert(mline.subrange(0, 2) =~= "mn"@);
    }
    assert(contains(mline, "mn "@)) by {
        assert(mline.subrange(0, 3) =~= "mn "@);
        assert(occurs_at(mline, "mn "@, 0));
    }
    lemma_first_differs(mline, "paa va"@);
    assert(mline != "mc"@) by {
        assert(mline[1] != "mc"@[1]);
    }
    assert(mline != "pa"@) by {
        assert(mline[0] != "pa"@[0]);
    }
    assert(e != "mc"@ && e != "pa"@) by {
        assert(e.len() != "mc"@.len() && e.len() != "pa"@.len());
    }
    assert(!starts_with(e, "mn"@) && !starts_with(e, "paa va"@));
    lemma_first_differs("pa"@, "mn"@);
    assert(!starts_with("mc"@, "paa va"@) && !starts_with("pa"@, "paa va"@));
    assert(!starts_with("mc"@, "mn"@)) by {
        assert("mc"@.subrange(0, 2) =~= "mc"@);
        assert("mc"@[1] != "mn"@[1]);
    }
    assert(!contains(e, "\n"@));
    assert(!contains("mc"@, "\n"@)) by {
        lemma_not_contains_prepend("mc"@, e, "\n"@);
        assert("mc"@ + e =~= "mc"@);
    }
    assert(!contains("pa"@, "\n"@)) by {
        lemma_not_contains_prepend("pa"@, e, "\n"@);
        assert("pa"@ + e =~= "pa"@);
    }
    assert forall|k: int| 0 <= k < lines.len() implies !contains(#[trigger] lines[k], "\n"@) by {
        if k >= 4 {
            assert(lines[k] == plines[k - 4]);
        }
    }
    lemma_split_join(lines, "\n"@);
    lemma_heads_append(fixed, plines);
    let f1 = seq![e];
    let f2 = seq![e, "mc"@];
    let f3 = seq![e, "mc"@, mline];
    assert(f1.drop_last() =~= Seq::<Seq<char>>::empty());
    assert(f2.drop_last() =~= f1);
    assert(f3.drop_last() =~= f2);
    assert(fixed.drop_last() =~= f3);
    assert(line_head(e) =~= e);
    assert(line_param(e) is None);
    assert(line_param("mc"@) is None);
    assert(line_param(mline) is None);
    assert(line_param("pa"@) is None);
    assert(f1.last() == e);
    assert(heads(f1.drop_last()) == e);
    assert(params_of(f1.drop_last()) == Seq::<Seq<char>>::empty());
    assert(heads(f1) =~= e);
    assert(heads(f2) =~= "<methodCall>"@);
    assert(heads(f3) =~= "<methodCall>"@ + ("<methodName>"@ + method + "</methodName>"@));
    assert(params_of(f1) =~= Seq::<Seq<char>>::empty());
    assert(params_of(f2) =~= Seq::<Seq<char>>::empty());
    assert(params_of(f3) =~= Seq::<Seq<char>>::empty());
    assert("pa"@ != "mc"@) by {
        assert("pa"@[0] != "mc"@[0]);
    }
    assert(fixed.last() == "pa"@);
    assert(heads(fixed) =~= "<methodCall>"@ + ("<methodName>"@ + method + "</methodName>"@)
        + "<params>"@);
    assert(params_of(fixed) =~= Seq::<Seq<char>>::empty());
    assert(params_of(lines) =~= params_of(plines));
    assert forall|k: int| 0 <= k < lines.len() implies line_ok(#[trigger] lines[k]) by {
        if k >= 4 {
            assert(lines[k] == plines[k - 4]);
        }
    }
    assert(split(minify(method, params), "\n"@) == lines);
    assert(heads(lines) =~= heads(fixed));
    assert(params_of(lines) == params_of(plines));
    assert(heads(plines) == Seq::<char>::empty());
    assert(params_xml(params_of(plines)) == param_elements(params));
    reveal_strlit("<methodCall>");
    reveal_strlit("<methodName>");
    reveal_strlit("</methodName>");
    reveal_strlit("<params>");
    reveal_strlit("<methodCall><methodName>");
    reveal_strlit("</methodName><params>");
    assert(xform_spec(minify(method, params)) =~= method_call(method, params));
}


/// The values of a request hold no line break.
pub open spec fn no_line_breaks(method: Seq<char>, params: Seq<Param>) -> bool {
    &&& !contains(method, "\n"@)
    &&& forall|k: int|
        0 <= k < params.len() ==> match #[trigger] params[k] {
            Param::Str(v) => !contains(v, "\n"@),
            Param::Int(v) => !contains(v, "\n"@),
            Param::Bool(_) => true,
        }
}

/// One parameter line, whose value holds no line break, can be expanded.
proof fn lemma_param_line_defined(p: Param)
    requires
        match p {
            Param::Str(v) => !contains(v, "\n"@),
            Param::Int(v) => !contains(v, "\n"@),
            Param::Bool(_) => true,
        },
    ensures
        !contains("paa va "@ + param_text(p), "\n"@),
        line_ok("paa va "@ + param_text(p)),
        line_head("paa va "@ + param_text(p)) == Seq::<char>::empty(),
        line_param("paa va "@ + param_text(p)) is Some,
        param_ok(line_param("paa va "@ + param_text(p))->0),
{
    reveal_strlit("paa va ");
    reveal_strlit("\n");
    reveal_strlit("mc");
    reveal_strlit("pa");
    reveal_strlit("mn");
    reveal_strlit("paa va");
    reveal_strlit("str");
    reveal_strlit("str ");
    reveal_strlit("int");
    reveal_strlit("int ");
    reveal_strlit("bool");
    reveal_strlit("true");
    reveal_strlit("false");
    reveal_strlit("bool true");
    reveal_strlit("bool false");
    let t = param_text(p);
    let line = "paa va "@ + t;
    let e = Seq::<char>::empty();
    lemma_split_after_lead("paa va "@, t);
    let piece = split(t, "paa va "@)[0];
    match p {
        Param::Str(v) => {
            lemma_not_contains_prepend("str "@, v, "\n"@);
            assert(starts_with(t, "str "@)) by {
                assert(t.subrange(0, 4) =~= "str "@);
            }
            lemma_first_piece_keeps_prefix(t, "paa va "@, "str "@);
            assert(starts_with(piece, "str"@)) by {
                assert(piece.subrange(0, 3) =~= "str"@);
            }
            assert(contains(piece, "str "@)) by {
                assert(piece.subrange(0, 4) =~= "str "@);
                assert(occurs_at(piece, "str "@, 0));
            }
        },
        Param::Int(v) => {
            lemma_not_contains_prepend("int "@, v, "\n"@);
            assert(starts_with(t, "int "@)) by {
                assert(t.subrange(0, 4) =~= "int "@);
            }
            lemma_first_piece_keeps_prefix(t, "paa va "@, "int "@);
            assert(piece[0] == 'i') by {
                assert(piece.subrange(0, 4)[0] == piece[0]);
            }
            lemma_first_differs(piece, "str"@);
            lemma_first_differs(piece, "bool"@);
            assert(starts_with(piece, "int"@)) by {
                assert(piece.subrange(0, 3) =~= "int"@);
            }
            assert(contains(piece, "int "@)) by {
                assert(piece.subrange(0, 4) =~= "int "@);
                assert(occurs_at(piece, "int "@, 0));
            }
        },
        Param::Bool(b) => {
            assert(t + e =~= t);
            lemma_not_contains_prepend(t, e, "\n"@);
            assert(starts_with(t, "bool"@)) by {
                assert(t.subrange(0, 4) =~= "bool"@);
            }
            lemma_first_piece_keeps_prefix(t, "paa va "@, "bool"@);
            assert(piece[0] == 'b') by {
                assert(piece.subrange(0, 4)[0] == piece[0]);
            }
            lemma_first_differs(piece, "str"@);
            lemma_first_differs(piece, "int"@);
        },
    }
    lemma_not_contains_prepend("paa va "@, t, "\n"@);
    lemma_first_differs(line, "mc"@);
    lemma_first_differs(line, "mn"@);
    assert(line != "pa"@) by {
        assert(line.len() != "pa"@.len());
    }
    assert(starts_with(line, "paa va"@)) by {
        assert(line.subrange(0, 6) =~= "paa va"@);
    }
    assert(contains(line, "paa va "@)) by {
        assert(line.subrange(0, 7) =~= "paa va "@);
        assert(occurs_at(line, "paa va "@, 0));
    }
}

/// The lines of a request whose values hold no line break: how `xform`
/// splits its text, and that every line and parameter can be expanded.
proof fn lemma_request_lines(method: Seq<char>, params: Seq<Param>)
    requires
        no_line_breaks(method, params),
    ensures
        split(minify(method, params), "\n"@) == request_lines(method, params),
        xform_defined(minify(method, params)),
{
    reveal_strlit("\n");
    reveal_strlit("mc");
    reveal_strlit("pa");
    reveal_strlit("mn");
    reveal_strlit("mn ");
    reveal_strlit("paa va");
    let e = Seq::<char>::empty();
    let lines = request_lines(method, params);
    let plines = params.map_values(|p: Param| "paa va "@ + param_text(p));
    let fixed = seq![e, "mc"@, "mn "@ + method, "pa"@];
    assert(lines == fixed + plines);
    let mline = "mn "@ + method;
    lemma_not_contains_prepend("mn "@, method, "\n"@);
    assert(contains(mline, "mn "@)) by {
        assert(mline.subrange(0, 3) =~= "mn "@);
        assert(occurs_at(mline, "mn "@, 0));
    }
    lemma_first_differs(mline, "paa va"@);
    assert(!contains(e, "\n"@));
    assert(!contains("mc"@, "\n"@)) by {
        lemma_not_contains_prepend("mc"@, e, "\n"@);
        assert("mc"@ + e =~= "mc"@);
    }
    assert(!contains("pa"@, "\n"@)) by {
        lemma_not_contains_prepend("pa"@, e, "\n"@);
        assert("pa"@ + e =~= "pa"@);
    }
    assert(!starts_with(e, "mn"@) && !starts_with(e, "paa va"@));
    lemma_first_differs("pa"@, "mn"@);
    assert(!starts_with("mc"@, "paa va"@) && !starts_with("pa"@, "paa va"@));
    assert(!starts_with("mc"@, "mn"@)) by {
        assert("mc"@.subrange(0, 2) =~= "mc"@);
        assert("mc"@[1] != "mn"@[1]);
    }
    assert forall|k: int| 0 <= k < plines.len() implies !contains(#[trigger] plines[k], "\n"@)
        && line_ok(plines[k]) && line_head(plines[k]) == e && line_param(plines[k]) is Some
        && param_ok(line_param(plines[k])->0) by {
        assert(plines[k] == "paa va "@ + param_text(params[k]));
        lemma_param_line_defined(params[k]);
    }
    assert forall|k: int| 0 <= k < lines.len() implies !contains(#[trigger] lines[k], "\n"@) by {
        if k >= 4 {
            assert(lines[k] == plines[k - 4]);
        }
    }
    lemma_split_join(lines, "\n"@);
    assert forall|k: int| 0 <= k < lines.len() implies line_ok(#[trigger] lines[k]) by {
        if k >= 4 {
            assert(lines[k] == plines[k - 4]);
        }
    }
    lemma_params_defined(lines);
}

/// Every parameter text collected from lines that are all expandable
/// parameter lines, or not parameter lines at all, can be expanded.
proof fn lemma_params_defined(lines: Seq<Seq<char>>)
    requires
        forall|k: int|
            0 <= k < lines.len() ==> (#[trigger] line_param(lines[k]) matches Some(p) ==> param_ok(
                p,
            )),
    ensures
        forall|j: int| 0 <= j < params_of(lines).len() ==> param_ok(#[trigger] params_of(lines)[j]),
    decreases lines.len(),
{
    if lines.len() > 0 {
        let init = lines.drop_last();
        assert forall|k: int| 0 <= k < init.len() implies (#[trigger] line_param(init[k]) matches Some(
            p,
        ) ==> param_ok(p)) by {
            assert(init[k] == lines[k]);
        }
        lemma_params_defined(init);
        let ps = params_of(lines);
        assert(line_param(lines[lines.len() - 1]) matches Some(p) ==> param_ok(p));
        assert forall|j: int| 0 <= j < ps.len() implies param_ok(#[trigger] ps[j]) by {
            if j < params_of(init).len() {
                assert(ps[j] == params_of(init)[j]);
            }
        }
    }
}

/// A request whose values hold no line break can always be expanded.
pub proof fn lemma_request_defined(method: Seq<char>, params: Seq<Param>)
    requires
        no_line_breaks(method, params),
    ensures
        xform_defined(minify(method, params)),
{
    lemma_request_lines(method, params);
}

/// Adding a parameter appends its line.
pub proof fn lemma_minify_push(method: Seq<char>, params: Seq<Param>, p: Param)
    ensures
        minify(method, params.push(p)) == minify(method, params) + "\n"@ + "paa va "@
            + param_text(p),
        minify(method, Seq::empty()) == "\nmc\nmn "@ + method + "\npa"@,
{
    reveal_strlit("\n");
    reveal_strlit("mc");
    reveal_strlit("pa");
    reveal_strlit("mn ");
    reveal_strlit("\nmc\nmn ");
    reveal_strlit("\npa");
    let lines = request_lines(method, params.push(p));
    assert(lines.drop_last() =~= request_lines(method, params));
    assert(lines.last() == "paa va "@ + param_text(p));
    let e = Seq::<char>::empty();
    let l0 = request_lines(method, Seq::empty());
    assert(l0 =~= seq![e, "mc"@, "mn "@ + method, "pa"@]);
    let l1 = seq![e];
    let l2 = seq![e, "mc"@];
    let l3 = seq![e, "mc"@, "mn "@ + method];
    assert(l0.drop_last() =~= l3);
    assert(l3.drop_last() =~= l2);
    assert(l2.drop_last() =~= l1);
    reveal_strlit("\nmc");
    assert(l1[0] == e);
    assert(join(l1, "\n"@) == e);
    assert(l2.last() == "mc"@);
    assert(join(l2, "\n"@) =~= "\nmc"@);
    assert(join(l3, "\n"@) =~= "\nmc\nmn "@ + method);
    assert(join(l0, "\n"@) =~= "\nmc\nmn "@ + method + "\npa"@);
}

/// A line that `xform` ignores: no line break, not `mc` or `pa`, and not
/// a method or a parameter line.
pub open spec fn ignored_line(j: Seq<char>) -> bool {
    &&& !contains(j, "\n"@)
    &&& j != "mc"@
    &&& j != "pa"@
    &&& !starts_with(j, "mn"@)
    &&& !starts_with(j, "paa va"@)
}

/// The lines of any text, joined back with line feeds, split into the
/// same lines with one more line added at either end.
proof fn lemma_lines_with(s: Seq<char>, j: Seq<char>)
    requires
        !contains(j, "\n"@),
    ensures
        split(s + "\n"@ + j, "\n"@) == split(s, "\n"@).push(j),
        split(j + "\n"@ + s, "\n"@) == seq![j] + split(s, "\n"@),
{
    reveal_strlit("\n");
    let nl = "\n"@;
    assert(nl =~= seq!['\n']);
    let ls = split(s, nl);
    lemma_split_len(s, nl);
    lemma_split_sep_lacks(s, '\n');
    lemma_join_split(s, nl);
    assert forall|k: int| 0 <= k < ls.len() implies !contains(#[trigger] ls[k], nl) by {
        lemma_lacks_contains(ls[k], '\n');
    }
    let back = ls.push(j);
    assert(back.drop_last() =~= ls);
    assert(join(back, nl) == s + nl + j);
    assert forall|k: int| 0 <= k < back.len() implies !contains(#[trigger] back[k], nl) by {
        if k < ls.len() {
            assert(back[k] == ls[k]);
        }
    }
    lemma_split_join(back, nl);
    let front = seq![j] + ls;
    lemma_join_front(front, nl);
    assert(front.drop_first() =~= ls);
    assert forall|k: int| 0 <= k < front.len() implies !contains(#[trigger] front[k], nl) by {
        if k > 0 {
            assert(front[k] == ls[k - 1]);
        }
    }
    lemma_split_join(front, nl);
}

/// `xform` ignores a line that is neither `mc`, `pa`, a method line nor a
/// parameter line, wherever it stands: added before or after any text, it
/// changes neither the result nor whether `xform` accepts the text.
pub proof fn lemma_xform_ignores_line(s: Seq<char>, j: Seq<char>)
    requires
        ignored_line(j),
    ensures
        xform_spec(s + "\n"@ + j) == xform_spec(s),
        xform_spec(j + "\n"@ + s) == xform_spec(s),
        xform_defined(s + "\n"@ + j) == xform_defined(s),
        xform_defined(j + "\n"@ + s) == xform_defined(s),
{
    lemma_lines_with(s, j);
    let ls = split(s, "\n"@);
    let back = ls.push(j);
    let front = seq![j] + ls;
    assert(line_head(j) =~= Seq::<char>::empty());
    assert(line_param(j) is None);
    assert(line_ok(j));
    assert(back.drop_last() =~= ls);
    assert(heads(back) =~= heads(ls));
    assert(params_of(back) == params_of(ls));
    lemma_heads_append(seq![j], ls);
    assert(seq![j].drop_last() =~= Seq::<Seq<char>>::empty());
    assert(seq![j].last() == j);
    assert(heads(Seq::<Seq<char>>::empty()) == Seq::<char>::empty());
    assert(params_of(Seq::<Seq<char>>::empty()) == Seq::<Seq<char>>::empty());
    assert(heads(seq![j]) =~= Seq::<char>::empty());
    assert(params_of(seq![j]) =~= Seq::<Seq<char>>::empty());
    assert(heads(front) =~= heads(ls));
    assert(params_of(front) =~= params_of(ls));
    assert((forall|k: int| 0 <= k < back.len() ==> line_ok(#[trigger] back[k])) == (forall|k: int|
        0 <= k < ls.len() ==> line_ok(#[trigger] ls[k]))) by {
        assert forall|k: int| 0 <= k < ls.len() implies back[k] == ls[k] by {}
        assert(back[ls.len() as int] == j);
    }
    assert((forall|k: int| 0 <= k < front.len() ==> line_ok(#[trigger] front[k])) == (forall|k: int|
        0 <= k < ls.len() ==> line_ok(#[trigger] ls[k]))) by {
        assert forall|k: int| 0 <= k < ls.len() implies front[k + 1] == ls[k] by {}
        assert(front[0] == j);
        if forall|k: int| 0 <= k < ls.len() ==> line_ok(#[trigger] ls[k]) {
            assert forall|k: int| 0 <= k < front.len() implies line_ok(#[trigger] front[k]) by {
                if k > 0 {
                    assert(front[k] == ls[k - 1]);
                }
            }
        }
    }
}

/// The lines that are not parameter lines, in order.
pub open spec fn header_lines(lines: Seq<Seq<char>>) -> Seq<Seq<char>>
    decreases lines.len(),
{
    if lines.len() == 0 {
        Seq::empty()
    } else if is_param_line(lines.last()) {
        header_lines(lines.drop_last())
    } else {
        header_lines(lines.drop_last()).push(lines.last())
    }
}

/// The parameter lines, in order.
pub open spec fn param_lines(lines: Seq<Seq<char>>) -> Seq<Seq<char>>
    decreases lines.len(),
{
    if lines.len() == 0 {
        Seq::empty()
    } else if is_param_line(lines.last()) {
        param_lines(lines.drop_last()).push(lines.last())
    } else {
        param_lines(lines.drop_last())
    }
}

proof fn lemma_line_sorting(lines: Seq<Seq<char>>)
    ensures
        heads(lines) == heads(header_lines(lines)),
        params_of(lines) == params_of(param_lines(lines)),
        heads(param_lines(lines)) == Seq::<char>::empty(),
        params_of(header_lines(lines)) == Seq::<Seq<char>>::empty(),
        header_lines(lines).len() + param_lines(lines).len() == lines.len(),
        forall|k: int|
            0 <= k < header_lines(lines).len() ==> exists|m: int|
                0 <= m < lines.len() && #[trigger] header_lines(lines)[k] == lines[m],
        forall|k: int|
            0 <= k < param_lines(lines).len() ==> exists|m: int|
                0 <= m < lines.len() && #[trigger] param_lines(lines)[k] == lines[m],
    decreases lines.len(),
{
    if lines.len() > 0 {
        let init = lines.drop_last();
        let last = lines.last();
        lemma_line_sorting(init);
        let h = header_lines(init);
        let p = param_lines(init);
        assert(h.push(last).drop_last() =~= h);
        assert(p.push(last).drop_last() =~= p);
        if is_param_line(last) {
            assert(line_head(last) =~= Seq::<char>::empty());
            assert(heads(lines) =~= heads(init));
            assert(heads(p.push(last)) =~= heads(p));
        } else {
            assert(line_param(last) is None);
            assert(params_of(h.push(last)) == params_of(h));
        }
        let hl = header_lines(lines);
        let pl = param_lines(lines);
        assert forall|k: int| 0 <= k < hl.len() implies exists|m: int|
            0 <= m < lines.len() && #[trigger] hl[k] == lines[m] by {
            if k < h.len() {
                assert(hl[k] == h[k]);
                let m = choose|m: int| 0 <= m < init.len() && h[k] == init[m];
                assert(lines[m] == init[m]);
            } else {
                assert(hl[k] == lines[lines.len() - 1]);
            }
        }
        assert forall|k: int| 0 <= k < pl.len() implies exists|m: int|
            0 <= m < lines.len() && #[trigger] pl[k] == lines[m] by {
            if k < p.len() {
                assert(pl[k] == p[k]);
                let m = choose|m: int| 0 <= m < init.len() && p[k] == init[m];
                assert(lines[m] == init[m]);
            } else {
                assert(pl[k] == lines[lines.len() - 1]);
            }
        }
    }
}

/// Parameter lines may stand anywhere among the other lines: `xform` of
/// lines in any order gives what it gives for the other lines first and
/// the parameter lines after them, each kind keeping its own order.
pub proof fn lemma_xform_params_after_headers(lines: Seq<Seq<char>>)
    requires
        lines.len() >= 1,
        forall|k: int| 0 <= k < lines.len() ==> !contains(#[trigger] lines[k], "\n"@),
    ensures
        xform_spec(join(lines, "\n"@)) == xform_spec(
            join(header_lines(lines) + param_lines(lines), "\n"@),
        ),
        xform_defined(join(lines, "\n"@)) == xform_defined(
            join(header_lines(lines) + param_lines(lines), "\n"@),
        ),
{
    reveal_strlit("\n");
    let nl = "\n"@;
    assert(nl.len() == 1);
    lemma_line_sorting(lines);
    let sorted = header_lines(lines) + param_lines(lines);
    let h = header_lines(lines);
    let p = param_lines(lines);
    assert forall|k: int| 0 <= k < sorted.len() implies !contains(#[trigger] sorted[k], nl) by {
        if k < h.len() {
            assert(sorted[k] == h[k]);
            let m = choose|m: int| 0 <= m < lines.len() && h[k] == lines[m];
        } else {
            assert(sorted[k] == p[k - h.len()]);
            let m = choose|m: int| 0 <= m < lines.len() && p[k - h.len()] == lines[m];
        }
    }
    lemma_split_join(lines, nl);
    lemma_split_join(sorted, nl);
    lemma_heads_append(h, p);
    lemma_line_sorting(sorted);
    assert(heads(sorted) =~= heads(h));
    assert(params_of(sorted) =~= params_of(p));
    // whether every line and parameter is accepted
    let all_ok = |x: Seq<Seq<char>>| forall|k: int| 0 <= k < x.len() ==> line_ok(#[trigger] x[k]);
    assert(all_ok(lines) == all_ok(sorted)) by {
        if all_ok(lines) {
            assert forall|k: int| 0 <= k < sorted.len() implies line_ok(#[trigger] sorted[k]) by {
                if k < h.len() {
                    assert(sorted[k] == h[k]);
                    let m = choose|m: int| 0 <= m < lines.len() && h[k] == lines[m];
                    assert(line_ok(lines[m]));
                } else {
                    assert(sorted[k] == p[k - h.len()]);
                    let m = choose|m: int| 0 <= m < lines.len() && p[k - h.len()] == lines[m];
                    assert(line_ok(lines[m]));
                }
            }
        }
        if all_ok(sorted) {
            lemma_lines_covered(lines);
            assert forall|k: int| 0 <= k < lines.len() implies line_ok(#[trigger] lines[k]) by {
                if is_param_line(lines[k]) {
                    let m = choose|m: int| 0 <= m < p.len() && p[m] == lines[k];
                    assert(sorted[h.len() + m] == p[m]);
                } else {
                    let m = choose|m: int| 0 <= m < h.len() && h[m] == lines[k];
                    assert(sorted[m] == h[m]);
                }
            }
        }
    }
}

/// Every line lands in one of the two sorted lists.
proof fn lemma_lines_covered(lines: Seq<Seq<char>>)
    ensures
        forall|k: int|
            0 <= k < lines.len() ==> (if is_param_line(#[trigger] lines[k]) {
                exists|m: int| 0 <= m < param_lines(lines).len() && param_lines(lines)[m] == lines[k]
            } else {
                exists|m: int|
                    0 <= m < header_lines(lines).len() && header_lines(lines)[m] == lines[k]
            }),
    decreases lines.len(),
{
    if lines.len() > 0 {
        let init = lines.drop_last();
        lemma_lines_covered(init);
        let h = header_lines(init);
        let p = param_lines(init);
        let hl = header_lines(lines);
        let pl = param_lines(lines);
        assert forall|k: int| 0 <= k < lines.len() implies (if is_param_line(#[trigger] lines[k]) {
            exists|m: int| 0 <= m < pl.len() && pl[m] == lines[k]
        } else {
            exists|m: int| 0 <= m < hl.len() && hl[m] == lines[k]
        }) by {
            if k == lines.len() - 1 {
                if is_param_line(lines[k]) {
                    assert(pl[pl.len() - 1] == lines[k]);
                } else {
                    assert(hl[hl.len() - 1] == lines[k]);
                }
            } else {
                assert(lines[k] == init[k]);
                if is_param_line(lines[k]) {
                    let m = choose|m: int| 0 <= m < p.len() && p[m] == init[k];
                    assert(pl[m] == p[m]);
                } else {
                    let m = choose|m: int| 0 <= m < h.len() && h[m] == init[k];
                    assert(hl[m] == h[m]);
                }
            }
        }
    }
}

/// A request parameter.
pub enum Value {
    Str(String),
    Bool(bool),
    Int(String),
}

impl View for Value {
    type V = Param;

    open spec fn view(&self) -> Param {
        match self {
            Value::Str(s) => Param::Str(s@),
            Value::Bool(b) => Param::Bool(*b),
            Value::Int(s) => Param::Int(s@),
        }
    }
}

/// The minified request for a method call: `mc`, `mn` with the method
/// name, `pa`, and a `paa va` line for each parameter, each line after a
/// line feed.
pub fn minify_request(method: &str, params: &[Value]) -> (res: String)
    ensures
        res@ == minify(method@, params@.map_values(|v: Value| v@)),
{
    let mut text = String::new();
    text.append("\nmc\nmn ");
    text.append(method);
    text.append("\npa");
    proof {
        lemma_minify_push(method@, Seq::empty(), Param::Bool(true));
        assert(params@.map_values(|v: Value| v@).take(0) =~= Seq::<Param>::empty());
    }
    let mut k: usize = 0;
    while k < params.len()
        invariant
            k <= params@.len(),
            text@ == minify(method@, params@.map_values(|v: Value| v@).take(k as int)),
        decreases params@.len() - k,
    {
        let ghost ps = params@.map_values(|v: Value| v@);
        proof {
            lemma_minify_push(method@, ps.take(k as int), ps[k as int]);
            assert(ps.take(k + 1) =~= ps.take(k as int).push(ps[k as int]));
            reveal_strlit("str ");
            reveal_strlit("int ");
        }
        text.append("\npaa va ");
        match &params[k] {
            Value::Str(v) => {
                text.append("str ");
                text.append(v.as_str());
            },
            Value::Bool(b) => {
                if *b {
                    text.append("bool true");
                } else {
                    text.append("bool false");
                }
            },
            Value::Int(v) => {
                text.append("int ");
                text.append(v.as_str());
            },
        }
        proof {
            reveal_strlit("\npaa va ");
            reveal_strlit("paa va ");
            reveal_strlit("\n");
        }
        assert(text@ =~= minify(method@, ps.take(k as int)) + "\n"@ + "paa va "@ + param_text(
            ps[k as int],
        ));
        k = k + 1;
    }
    assert(params@.map_values(|v: Value| v@).take(params@.len() as int) =~= params@.map_values(
        |v: Value| v@,
    ));
    text
}

} // verus!
