//! What holds of rendering as a whole: escaped text is safe inside a JSON
//! string and loses nothing, the document is JSON and says what was found,
//! and totals add up.
use vstd::prelude::*;

use crate::findings;
use crate::findings::{Check, FindingView, Severity};
use crate::json;
use crate::json::Json;
use crate::report;
use crate::report::FailureView;
use crate::scan;
use crate::scan::ReportView;
use crate::text;

verus! {

proof fn lemma_escaped_front(s: Seq<char>)
    requires
        s.len() > 0,
    ensures
        report::escaped(s) == report::escaped_char(s[0]) + report::escaped(s.skip(1)),
    decreases s.len(),
{
    if s.len() == 1 {
        assert(s.drop_last() =~= seq![]);
        assert(s.skip(1) =~= seq![]);
        assert(report::escaped(s) =~= report::escaped_char(s[0]) + report::escaped(s.skip(1)));
    } else {
        lemma_escaped_front(s.drop_last());
        assert(s.drop_last().skip(1) =~= s.skip(1).drop_last());
        assert(report::escaped(s) =~= report::escaped_char(s[0]) + report::escaped(s.skip(1)));
    }
}

proof fn lemma_small_hex(n: nat)
    requires
        n < 32,
    ensures
        ({
            let d = text::four_digits(n, 16);
            &&& d.len() == 4
            &&& d[0] == '0'
            &&& d[1] == '0'
            &&& json::hex_value(d[2]) == Some(n as int / 16)
            &&& json::hex_value(d[3]) == Some(n as int % 16)
        }),
{
    reveal_with_fuel(text::digits, 3);
    let d = text::four_digits(n, 16);
    if n < 16 {
        assert(text::digits(n, 16) =~= seq![text::digit(n as int)]);
        assert(d[2] == '0');
        assert(d[3] == text::digit(n as int));
    } else {
        assert(text::digits(n / 16, 16) =~= seq![text::digit(1)]);
        assert(text::digits(n, 16) =~= seq![text::digit(1), text::digit(n as int % 16)]);
        assert(d[2] == text::digit(1));
        assert(d[3] == text::digit(n as int % 16));
    }
}

proof fn lemma_escape_is_read(c: char, rest: Seq<char>)
    ensures
        json::quoted(report::escaped_char(c) + rest) == json::led_by(c, json::quoted(rest)),
{
    let e = report::escaped_char(c);
    let s = e + rest;
    reveal_strlit("\\\"");
    reveal_strlit("\\\\");
    reveal_strlit("\\n");
    reveal_strlit("\\r");
    reveal_strlit("\\t");
    reveal_strlit("\\u");
    if c == '"' || c == '\\' || c == '\n' || c == '\r' || c == '\t' {
        assert(e.len() == 2);
        assert(s[0] == e[0] && s[1] == e[1]);
        assert(s.skip(2) =~= rest);
    } else if (c as u32) < 0x20 {
        let d = text::four_digits(c as u32 as nat, 16);
        lemma_small_hex(c as u32 as nat);
        assert(e =~= "\\u"@ + d);
        assert(s[0] == '\\' && s[1] == 'u');
        assert(s.subrange(2, 6) =~= d);
        assert(s.skip(6) =~= rest);
        let n = c as u32 as int;
        assert(16 * (n / 16) + n % 16 == n);
        assert(json::hex_char(d) == Some(c));
    } else {
        assert(s[0] == c);
        assert(s.skip(1) =~= rest);
    }
}

/// Escaping is total and loses nothing: a JSON reader finds the closing quote
/// behind the escaped text, and reads back exactly the text that was escaped,
/// whatever characters an archive name holds.
pub proof fn law_escaping_round_trips(s: Seq<char>, rest: Seq<char>)
    ensures
        json::quoted(report::escaped(s) + seq!['"'] + rest) == Some((s, rest)),
    decreases s.len(),
{
    let all = report::escaped(s) + seq!['"'] + rest;
    if s.len() == 0 {
        assert(all[0] == '"');
        assert(all.skip(1) =~= rest);
        assert(s =~= seq![]);
    } else {
        let left = report::escaped(s.skip(1)) + seq!['"'] + rest;
        lemma_escaped_front(s);
        assert(all =~= report::escaped_char(s[0]) + left);
        law_escaping_round_trips(s.skip(1), rest);
        lemma_escape_is_read(s[0], left);
        assert(seq![s[0]] + s.skip(1) =~= s);
    }
}

/// Different texts stay different in JSON.
pub proof fn law_escaping_is_injective(a: Seq<char>, b: Seq<char>)
    requires
        report::escaped(a) == report::escaped(b),
    ensures
        a == b,
{
    law_escaping_round_trips(a, seq![]);
    law_escaping_round_trips(b, seq![]);
}

/// No control character survives escaping.
pub proof fn law_escaped_text_has_no_control_characters(s: Seq<char>, i: int)
    requires
        0 <= i < report::escaped(s).len(),
    ensures
        report::escaped(s)[i] as u32 >= 0x20,
    decreases s.len(),
{
    if s.len() > 0 {
        let front = report::escaped(s.drop_last());
        let e = report::escaped_char(s.last());
        if i < front.len() {
            law_escaped_text_has_no_control_characters(s.drop_last(), i);
        } else {
            reveal_strlit("\\\"");
            reveal_strlit("\\\\");
            reveal_strlit("\\n");
            reveal_strlit("\\r");
            reveal_strlit("\\t");
            reveal_strlit("\\u");
            assert(report::escaped(s)[i] == e[i - front.len()]);
            if (s.last() as u32) < 0x20 {
                lemma_small_hex(s.last() as u32 as nat);
            }
        }
    }
}

/// A finding as a JSON value.
pub open spec fn finding_value(f: FindingView) -> Json {
    Json::Object(
        seq![
            ("check"@, Json::Text(findings::check_id(f.check))),
            ("severity"@, Json::Text(findings::severity_label(f.severity))),
            ("path"@, Json::Text(f.path)),
            ("detail"@, Json::Text(f.detail)),
        ],
    )
}

/// A report as a JSON value.
pub open spec fn report_value(r: ReportView) -> Json {
    Json::Object(
        seq![
            ("path"@, Json::Text(r.path)),
            ("format"@, Json::Text(crate::format::format_label(r.format))),
            ("entries"@, Json::Number(r.entries)),
            ("critical"@, Json::Number(scan::count_of(r.findings, Severity::Critical))),
            ("warnings"@, Json::Number(scan::count_of(r.findings, Severity::Warning))),
            ("findings"@, Json::List(r.findings.map_values(|f: FindingView| finding_value(f)))),
        ],
    )
}

/// A failure as a JSON value.
pub open spec fn failure_value(f: FailureView) -> Json {
    Json::Object(seq![("path"@, Json::Text(f.path)), ("error"@, Json::Text(f.error))])
}

/// The whole run as a JSON value.
pub open spec fn run_value(reports: Seq<ReportView>, failures: Seq<FailureView>) -> Json {
    Json::Object(
        seq![
            ("slipcheck"@, Json::Text(crate::VERSION@)),
            ("archives"@, Json::List(reports.map_values(|r: ReportView| report_value(r)))),
            ("errors"@, Json::List(failures.map_values(|f: FailureView| failure_value(f)))),
            ("critical"@, Json::Number(report::total(reports, Severity::Critical))),
            ("warnings"@, Json::Number(report::total(reports, Severity::Warning))),
        ],
    )
}

proof fn lemma_keys_are_plain()
    ensures
        json::plain("check"@),
        json::plain("severity"@),
        json::plain("path"@),
        json::plain("detail"@),
        json::plain("format"@),
        json::plain("entries"@),
        json::plain("critical"@),
        json::plain("warnings"@),
        json::plain("findings"@),
        json::plain("error"@),
        json::plain("errors"@),
        json::plain("slipcheck"@),
        json::plain("archives"@),
{
    reveal_strlit("check");
    reveal_strlit("severity");
    reveal_strlit("path");
    reveal_strlit("detail");
    reveal_strlit("format");
    reveal_strlit("entries");
    reveal_strlit("critical");
    reveal_strlit("warnings");
    reveal_strlit("findings");
    reveal_strlit("error");
    reveal_strlit("errors");
    reveal_strlit("slipcheck");
    reveal_strlit("archives");
}

proof fn lemma_labels_are_plain(check: Check, severity: Severity, format: crate::format::Format)
    ensures
        json::plain(findings::check_id(check)),
        json::plain(findings::severity_label(severity)),
        json::plain(crate::format::format_label(format)),
{
    reveal_strlit("absolute-path");
    reveal_strlit("traversal");
    reveal_strlit("link-escape");
    reveal_strlit("link-indirection");
    reveal_strlit("setuid");
    reveal_strlit("setgid");
    reveal_strlit("world-writable");
    reveal_strlit("special-file");
    reveal_strlit("duplicate-path");
    reveal_strlit("case-collision");
    reveal_strlit("name-mismatch");
    reveal_strlit("unpack-limit");
    reveal_strlit("warning");
    reveal_strlit("critical");
    reveal_strlit("tar");
    reveal_strlit("tar.gz");
    reveal_strlit("zip");
}

proof fn lemma_plain_text(s: Seq<char>, rest: Seq<char>)
    requires
        json::plain(s),
    ensures
        json::value(json::in_quotes(s) + rest) == Some((Json::Text(s), rest)),
{
    json::lemma_plain_is_read(s, rest);
    json::lemma_string_is_read(s, s, rest);
}

proof fn lemma_escaped_text(s: Seq<char>, rest: Seq<char>)
    ensures
        json::value(json::in_quotes(report::escaped(s)) + rest) == Some((Json::Text(s), rest)),
{
    law_escaping_round_trips(s, rest);
    json::lemma_string_is_read(report::escaped(s), s, rest);
}

/// A member with a string value.
spec fn text_member(lead: Seq<char>, key: Seq<char>, written: Seq<char>, end: char) -> Seq<char> {
    json::member_text(lead, key, json::in_quotes(written), seq![], end)
}

proof fn lemma_plain_member(
    lead: Seq<char>,
    key: Seq<char>,
    s: Seq<char>,
    end: char,
    rest: Seq<char>,
)
    requires
        json::blank(lead),
        json::plain(key),
        json::plain(s),
        end == ',' || end == '}',
    ensures
        json::members(text_member(lead, key, s, end) + rest) == (if end == '}' {
            Some((seq![(key, Json::Text(s))], rest))
        } else {
            json::led_by((key, Json::Text(s)), json::members(rest))
        }),
{
    lemma_plain_text(s, seq![] + seq![end] + rest);
    json::lemma_member_is_read(
        lead,
        key,
        json::in_quotes(s),
        Json::Text(s),
        seq![],
        end,
        rest,
    );
}

proof fn lemma_escaped_member(
    lead: Seq<char>,
    key: Seq<char>,
    s: Seq<char>,
    end: char,
    rest: Seq<char>,
)
    requires
        json::blank(lead),
        json::plain(key),
        end == ',' || end == '}',
    ensures
        json::members(text_member(lead, key, report::escaped(s), end) + rest) == (if end == '}' {
            Some((seq![(key, Json::Text(s))], rest))
        } else {
            json::led_by((key, Json::Text(s)), json::members(rest))
        }),
{
    lemma_escaped_text(s, seq![] + seq![end] + rest);
    json::lemma_member_is_read(
        lead,
        key,
        json::in_quotes(report::escaped(s)),
        Json::Text(s),
        seq![],
        end,
        rest,
    );
}

proof fn lemma_number_member(
    lead: Seq<char>,
    key: Seq<char>,
    n: nat,
    space: Seq<char>,
    end: char,
    rest: Seq<char>,
)
    requires
        json::blank(lead),
        json::plain(key),
        json::blank(space),
        end == ',' || end == '}',
    ensures
        json::members(
            json::member_text(lead, key, text::decimal(n), space, end) + rest,
        ) == (if end == '}' {
            Some((seq![(key, Json::Number(n))], rest))
        } else {
            json::led_by((key, Json::Number(n)), json::members(rest))
        }),
{
    let tail = space + seq![end] + rest;
    if space.len() > 0 {
        assert(json::is_space(space[0]));
        assert(tail[0] == space[0]);
    } else {
        assert(tail[0] == end);
    }
    json::lemma_number_is_read(n, tail);
    json::lemma_member_is_read(lead, key, text::decimal(n), Json::Number(n), space, end, rest);
}

proof fn lemma_list_member(
    lead: Seq<char>,
    key: Seq<char>,
    texts: Seq<Seq<char>>,
    list: Seq<Json>,
    inner: Seq<char>,
    space: Seq<char>,
    end: char,
    rest: Seq<char>,
)
    requires
        json::blank(lead),
        json::plain(key),
        json::each_read(texts, list),
        json::blank(inner),
        json::blank(space),
        end == ',' || end == '}',
    ensures
        json::members(
            json::member_text(lead, key, json::list_text(texts, inner), space, end) + rest,
        ) == (if end == '}' {
            Some((seq![(key, Json::List(list))], rest))
        } else {
            json::led_by((key, Json::List(list)), json::members(rest))
        }),
{
    json::lemma_list_is_read(texts, list, inner, space + seq![end] + rest);
    json::lemma_member_is_read(
        lead,
        key,
        json::list_text(texts, inner),
        Json::List(list),
        space,
        end,
        rest,
    );
}

/// `n` spaces.
spec fn spaces(n: nat) -> Seq<char> {
    text::repeated(' ', n)
}

/// A new line and `n` spaces.
spec fn line(n: nat) -> Seq<char> {
    seq!['\n'] + spaces(n)
}

/// The members of a finding.
spec fn finding_members(f: FindingView) -> Seq<char> {
    text_member(seq![], "check"@, findings::check_id(f.check), ',') + text_member(
        seq![' '],
        "severity"@,
        findings::severity_label(f.severity),
        ',',
    ) + text_member(seq![' '], "path"@, report::escaped(f.path), ',') + text_member(
        seq![' '],
        "detail"@,
        report::escaped(f.detail),
        '}',
    )
}

/// A finding without what separates it from the next.
spec fn finding_text(f: FindingView) -> Seq<char> {
    spaces(8) + (seq!['{'] + finding_members(f))
}

/// What stands in front of a value: its key, and what opens it.
spec fn opening(lead: Seq<char>, key: Seq<char>, open: Seq<char>) -> Seq<char> {
    lead + json::in_quotes(key) + seq![':', ' '] + open
}

/// What stands behind a value: what closes it, and the comma or brace.
spec fn closing(close: Seq<char>, space: Seq<char>, end: char) -> Seq<char> {
    close + (space + seq![end])
}

/// Closing a value that is open in `x` makes the member whole.
proof fn lemma_closed(
    x: Seq<char>,
    done: Seq<char>,
    lead: Seq<char>,
    key: Seq<char>,
    open: Seq<char>,
    w: Seq<char>,
    close: Seq<char>,
    space: Seq<char>,
    end: char,
    next: Seq<char>,
)
    requires
        x == done + opening(lead, key, open) + w,
    ensures
        x + (closing(close, space, end) + next) == done + json::member_text(
            lead,
            key,
            open + w + close,
            space,
            end,
        ) + next,
{
    assert(x + (closing(close, space, end) + next) =~= done + json::member_text(
        lead,
        key,
        open + w + close,
        space,
        end,
    ) + next);
}

/// Closing a string makes its member whole.
proof fn lemma_text_closed(
    x: Seq<char>,
    done: Seq<char>,
    lead: Seq<char>,
    key: Seq<char>,
    w: Seq<char>,
    end: char,
    next: Seq<char>,
)
    requires
        x == done + opening(lead, key, seq!['"']) + w,
    ensures
        x + (closing(seq!['"'], seq![], end) + next) == done + text_member(lead, key, w, end)
            + next,
{
    lemma_closed(x, done, lead, key, seq!['"'], w, seq!['"'], seq![], end, next);
}

/// What separates one item from the next.
spec fn separator(more: bool) -> Seq<char> {
    if more {
        seq![',', '\n']
    } else {
        seq!['\n']
    }
}

proof fn lemma_separator(x: Seq<char>, more: bool)
    ensures
        x + report::comma(more) + "\n"@ == x + separator(more),
{
    reveal_strlit(",");
    reveal_strlit("");
    reveal_strlit("\n");
    assert(x + report::comma(more) + "\n"@ =~= x + separator(more));
}

proof fn lemma_finding_literals()
    ensures
        "        {\"check\": \""@ == spaces(8) + seq!['{'] + opening(
            seq![],
            "check"@,
            seq!['"'],
        ),
        "\", \"severity\": \""@ == closing(seq!['"'], seq![], ',') + opening(
            seq![' '],
            "severity"@,
            seq!['"'],
        ),
        "\", \"path\": \""@ == closing(seq!['"'], seq![], ',') + opening(
            seq![' '],
            "path"@,
            seq!['"'],
        ),
        "\", \"detail\": \""@ == closing(seq!['"'], seq![], ',') + opening(
            seq![' '],
            "detail"@,
            seq!['"'],
        ),
        "\"}"@ == closing(seq!['"'], seq![], '}') + seq![],
{
    reveal_strlit("        {\"check\": \"");
    reveal_strlit("\", \"severity\": \"");
    reveal_strlit("\", \"path\": \"");
    reveal_strlit("\", \"detail\": \"");
    reveal_strlit("\"}");
    reveal_strlit("check");
    reveal_strlit("severity");
    reveal_strlit("path");
    reveal_strlit("detail");
}

proof fn lemma_finding_text(f: FindingView, more: bool)
    ensures
        report::json_finding(f, more) == finding_text(f) + separator(more),
{
    let id = findings::check_id(f.check);
    let label = findings::severity_label(f.severity);
    let path = report::escaped(f.path);
    let detail = report::escaped(f.detail);
    let start = spaces(8) + seq!['{'];
    let m1 = text_member(seq![], "check"@, id, ',');
    let m2 = text_member(seq![' '], "severity"@, label, ',');
    let m3 = text_member(seq![' '], "path"@, path, ',');
    let m4 = text_member(seq![' '], "detail"@, detail, '}');
    lemma_finding_literals();
    let o2 = opening(seq![' '], "severity"@, seq!['"']);
    let o3 = opening(seq![' '], "path"@, seq!['"']);
    let o4 = opening(seq![' '], "detail"@, seq!['"']);
    let x1 = "        {\"check\": \""@ + id;
    lemma_text_closed(x1, start, seq![], "check"@, id, ',', o2);
    let x2 = x1 + "\", \"severity\": \""@ + label;
    lemma_text_closed(x2, start + m1, seq![' '], "severity"@, label, ',', o3);
    let x3 = x2 + "\", \"path\": \""@ + path;
    lemma_text_closed(x3, start + m1 + m2, seq![' '], "path"@, path, ',', o4);
    let x4 = x3 + "\", \"detail\": \""@ + detail;
    lemma_text_closed(x4, start + m1 + m2 + m3, seq![' '], "detail"@, detail, '}', seq![]);
    let whole = x4 + "\"}"@;
    assert(whole =~= finding_text(f));
    lemma_separator(whole, more);
}

proof fn lemma_finding_is_read(f: FindingView, rest: Seq<char>)
    ensures
        json::value(finding_text(f) + rest) == Some((finding_value(f), rest)),
{
    let id = findings::check_id(f.check);
    let label = findings::severity_label(f.severity);
    let m1 = text_member(seq![], "check"@, id, ',');
    let m2 = text_member(seq![' '], "severity"@, label, ',');
    let m3 = text_member(seq![' '], "path"@, report::escaped(f.path), ',');
    let m4 = text_member(seq![' '], "detail"@, report::escaped(f.detail), '}');
    let r3 = m4 + rest;
    let r2 = m3 + r3;
    let r1 = m2 + r2;
    lemma_keys_are_plain();
    lemma_labels_are_plain(f.check, f.severity, crate::format::Format::Tar);
    lemma_escaped_member(seq![' '], "detail"@, f.detail, '}', rest);
    lemma_escaped_member(seq![' '], "path"@, f.path, ',', r3);
    lemma_plain_member(seq![' '], "severity"@, label, ',', r2);
    lemma_plain_member(seq![], "check"@, id, ',', r1);
    let list = finding_value(f)->Object_0;
    let (read, _) = json::members(m1 + r1)->0;
    assert(read =~= list);
    json::lemma_object_is_read(spaces(8), m1 + r1, list, rest);
    assert(finding_text(f) + rest =~= spaces(8) + (seq!['{'] + (m1 + r1)));
}

/// The findings, each without what separates it from the next.
spec fn finding_texts(found: Seq<FindingView>) -> Seq<Seq<char>> {
    found.map_values(|f: FindingView| finding_text(f))
}

proof fn lemma_findings_are_listed(found: Seq<FindingView>, n: nat)
    requires
        n <= found.len(),
    ensures
        report::json_findings(found, n) + json::listed(finding_texts(found), n as int)
            == report::json_findings(found, found.len()),
    decreases found.len() - n,
{
    let texts = finding_texts(found);
    let so_far = report::json_findings(found, n);
    if n < found.len() {
        lemma_findings_are_listed(found, n + 1);
        lemma_finding_text(found[n as int], n + 1 < found.len());
        assert(texts[n as int] == finding_text(found[n as int]));
        assert(so_far + json::listed(texts, n as int) =~= report::json_findings(found, n + 1)
            + json::listed(texts, n as int + 1));
    } else {
        assert(so_far + json::listed(texts, n as int) =~= so_far);
    }
}

proof fn lemma_findings_are_read(found: Seq<FindingView>)
    ensures
        report::json_findings(found, found.len()) == json::listed(finding_texts(found), 0),
        json::each_read(
            finding_texts(found),
            found.map_values(|f: FindingView| finding_value(f)),
        ),
{
    let texts = finding_texts(found);
    lemma_findings_are_listed(found, 0);
    assert(report::json_findings(found, 0) + json::listed(texts, 0) =~= json::listed(texts, 0));
    assert forall|i: int, rest: Seq<char>| 0 <= i < texts.len() implies #[trigger] json::value(
        texts[i] + rest,
    ) == Some((found.map_values(|f: FindingView| finding_value(f))[i], rest)) by {
        lemma_finding_is_read(found[i], rest);
    }
}

/// The members of a failure.
spec fn failure_members(f: FailureView) -> Seq<char> {
    text_member(seq![], "path"@, report::escaped(f.path), ',') + text_member(
        seq![' '],
        "error"@,
        report::escaped(f.error),
        '}',
    )
}

/// A failure without what separates it from the next.
spec fn failure_text(f: FailureView) -> Seq<char> {
    spaces(4) + (seq!['{'] + failure_members(f))
}

proof fn lemma_failure_literals()
    ensures
        "    {\"path\": \""@ == spaces(4) + seq!['{'] + opening(seq![], "path"@, seq!['"']),
        "\", \"error\": \""@ == closing(seq!['"'], seq![], ',') + opening(
            seq![' '],
            "error"@,
            seq!['"'],
        ),
        "\"}"@ == closing(seq!['"'], seq![], '}') + seq![],
{
    reveal_strlit("    {\"path\": \"");
    reveal_strlit("\", \"error\": \"");
    reveal_strlit("\"}");
    reveal_strlit("path");
    reveal_strlit("error");
}

proof fn lemma_failure_text(f: FailureView, more: bool)
    ensures
        report::json_failure(f, more) == failure_text(f) + separator(more),
{
    let path = report::escaped(f.path);
    let error = report::escaped(f.error);
    let start = spaces(4) + seq!['{'];
    let m1 = text_member(seq![], "path"@, path, ',');
    lemma_failure_literals();
    let x1 = "    {\"path\": \""@ + path;
    let o2 = opening(seq![' '], "error"@, seq!['"']);
    lemma_text_closed(x1, start, seq![], "path"@, path, ',', o2);
    let x2 = x1 + "\", \"error\": \""@ + error;
    lemma_text_closed(x2, start + m1, seq![' '], "error"@, error, '}', seq![]);
    let whole = x2 + "\"}"@;
    assert(whole =~= failure_text(f));
    lemma_separator(whole, more);
}

proof fn lemma_failure_is_read(f: FailureView, rest: Seq<char>)
    ensures
        json::value(failure_text(f) + rest) == Some((failure_value(f), rest)),
{
    let m1 = text_member(seq![], "path"@, report::escaped(f.path), ',');
    let m2 = text_member(seq![' '], "error"@, report::escaped(f.error), '}');
    let r1 = m2 + rest;
    lemma_keys_are_plain();
    lemma_escaped_member(seq![' '], "error"@, f.error, '}', rest);
    lemma_escaped_member(seq![], "path"@, f.path, ',', r1);
    let list = failure_value(f)->Object_0;
    let (read, _) = json::members(m1 + r1)->0;
    assert(read =~= list);
    json::lemma_object_is_read(spaces(4), m1 + r1, list, rest);
    assert(failure_text(f) + rest =~= spaces(4) + (seq!['{'] + (m1 + r1)));
}

/// The failures, each without what separates it from the next.
spec fn failure_texts(failures: Seq<FailureView>) -> Seq<Seq<char>> {
    failures.map_values(|f: FailureView| failure_text(f))
}

proof fn lemma_failures_are_listed(failures: Seq<FailureView>, n: nat)
    requires
        n <= failures.len(),
    ensures
        report::json_failures(failures, n) + json::listed(failure_texts(failures), n as int)
            == report::json_failures(failures, failures.len()),
    decreases failures.len() - n,
{
    let texts = failure_texts(failures);
    let so_far = report::json_failures(failures, n);
    if n < failures.len() {
        lemma_failures_are_listed(failures, n + 1);
        lemma_failure_text(failures[n as int], n + 1 < failures.len());
        assert(texts[n as int] == failure_text(failures[n as int]));
        assert(so_far + json::listed(texts, n as int) =~= report::json_failures(failures, n + 1)
            + json::listed(texts, n as int + 1));
    } else {
        assert(so_far + json::listed(texts, n as int) =~= so_far);
    }
}

proof fn lemma_failures_are_read(failures: Seq<FailureView>)
    ensures
        report::json_failures(failures, failures.len()) == json::listed(
            failure_texts(failures),
            0,
        ),
        json::each_read(
            failure_texts(failures),
            failures.map_values(|f: FailureView| failure_value(f)),
        ),
{
    let texts = failure_texts(failures);
    lemma_failures_are_listed(failures, 0);
    assert(report::json_failures(failures, 0) + json::listed(texts, 0) =~= json::listed(
        texts,
        0,
    ));
    assert forall|i: int, rest: Seq<char>| 0 <= i < texts.len() implies #[trigger] json::value(
        texts[i] + rest,
    ) == Some((failures.map_values(|f: FailureView| failure_value(f))[i], rest)) by {
        lemma_failure_is_read(failures[i], rest);
    }
}

/// A member with a number for a value.
spec fn number_member(key: Seq<char>, indent: nat, n: nat, space: Seq<char>, end: char) -> Seq<
    char,
> {
    json::member_text(line(indent), key, text::decimal(n), space, end)
}

/// A member with an array for a value.
spec fn list_member(
    key: Seq<char>,
    indent: nat,
    texts: Seq<Seq<char>>,
    space: Seq<char>,
    end: char,
) -> Seq<char> {
    json::member_text(line(indent), key, json::list_text(texts, spaces(indent)), space, end)
}

/// Closing a number makes its member whole.
proof fn lemma_number_closed(
    x: Seq<char>,
    done: Seq<char>,
    key: Seq<char>,
    indent: nat,
    n: nat,
    space: Seq<char>,
    end: char,
    next: Seq<char>,
)
    requires
        x == done + opening(line(indent), key, seq![]) + text::decimal(n),
    ensures
        x + (closing(seq![], space, end) + next) == done + number_member(
            key,
            indent,
            n,
            space,
            end,
        ) + next,
{
    let d = text::decimal(n);
    lemma_closed(x, done, line(indent), key, seq![], d, seq![], space, end, next);
    assert(seq![] + d + seq![] =~= d);
}

/// Closing an array makes its member whole.
proof fn lemma_list_closed(
    x: Seq<char>,
    done: Seq<char>,
    key: Seq<char>,
    indent: nat,
    texts: Seq<Seq<char>>,
    space: Seq<char>,
    end: char,
    next: Seq<char>,
)
    requires
        x == done + opening(line(indent), key, seq!['[', '\n']) + json::listed(texts, 0),
    ensures
        x + (closing(spaces(indent) + seq![']'], space, end) + next) == done + list_member(
            key,
            indent,
            texts,
            space,
            end,
        ) + next,
{
    let l = json::listed(texts, 0);
    let open = seq!['[', '\n'];
    let close = spaces(indent) + seq![']'];
    lemma_closed(x, done, line(indent), key, open, l, close, space, end, next);
    assert(open + l + close =~= json::list_text(texts, spaces(indent)));
}

/// The members of a report.
spec fn report_members(r: ReportView) -> Seq<char> {
    text_member(line(6), "path"@, report::escaped(r.path), ',') + text_member(
        line(6),
        "format"@,
        crate::format::format_label(r.format),
        ',',
    ) + number_member("entries"@, 6, r.entries, seq![], ',') + number_member(
        "critical"@,
        6,
        scan::count_of(r.findings, Severity::Critical),
        seq![],
        ',',
    ) + number_member(
        "warnings"@,
        6,
        scan::count_of(r.findings, Severity::Warning),
        seq![],
        ',',
    ) + list_member("findings"@, 6, finding_texts(r.findings), line(4), '}')
}

/// A report without what separates it from the next.
spec fn report_text(r: ReportView) -> Seq<char> {
    spaces(4) + (seq!['{'] + report_members(r))
}

proof fn lemma_report_literals()
    ensures
        "    {\n      \"path\": \""@ == spaces(4) + seq!['{'] + opening(
            line(6),
            "path"@,
            seq!['"'],
        ),
        "\",\n      \"format\": \""@ == closing(seq!['"'], seq![], ',') + opening(
            line(6),
            "format"@,
            seq!['"'],
        ),
        "\",\n      \"entries\": "@ == closing(seq!['"'], seq![], ',') + opening(
            line(6),
            "entries"@,
            seq![],
        ),
        ",\n      \"critical\": "@ == closing(seq![], seq![], ',') + opening(
            line(6),
            "critical"@,
            seq![],
        ),
        ",\n      \"warnings\": "@ == closing(seq![], seq![], ',') + opening(
            line(6),
            "warnings"@,
            seq![],
        ),
        ",\n      \"findings\": [\n"@ == closing(seq![], seq![], ',') + opening(
            line(6),
            "findings"@,
            seq!['[', '\n'],
        ),
        "      ]\n    }"@ == closing(spaces(6) + seq![']'], line(4), '}') + seq![],
{
    reveal_strlit("    {\n      \"path\": \"");
    reveal_strlit("\",\n      \"format\": \"");
    reveal_strlit("\",\n      \"entries\": ");
    reveal_strlit(",\n      \"critical\": ");
    reveal_strlit(",\n      \"warnings\": ");
    reveal_strlit(",\n      \"findings\": [\n");
    reveal_strlit("      ]\n    }");
    reveal_strlit("path");
    reveal_strlit("format");
    reveal_strlit("entries");
    reveal_strlit("critical");
    reveal_strlit("warnings");
    reveal_strlit("findings");
}

proof fn lemma_report_text(r: ReportView, more: bool)
    ensures
        report::json_report(r, more) == report_text(r) + separator(more),
{
    let path = report::escaped(r.path);
    let label = crate::format::format_label(r.format);
    let critical = scan::count_of(r.findings, Severity::Critical);
    let warnings = scan::count_of(r.findings, Severity::Warning);
    let texts = finding_texts(r.findings);
    let m1 = text_member(line(6), "path"@, path, ',');
    let m2 = text_member(line(6), "format"@, label, ',');
    let m3 = number_member("entries"@, 6, r.entries, seq![], ',');
    let m4 = number_member("critical"@, 6, critical, seq![], ',');
    let m5 = number_member("warnings"@, 6, warnings, seq![], ',');
    let m6 = list_member("findings"@, 6, texts, line(4), '}');
    let o2 = opening(line(6), "format"@, seq!['"']);
    let o3 = opening(line(6), "entries"@, seq![]);
    let o4 = opening(line(6), "critical"@, seq![]);
    let o5 = opening(line(6), "warnings"@, seq![]);
    let o6 = opening(line(6), "findings"@, seq!['[', '\n']);
    let p0 = spaces(4) + seq!['{'];
    let p1 = p0 + m1;
    let p2 = p1 + m2;
    let p3 = p2 + m3;
    let p4 = p3 + m4;
    let p5 = p4 + m5;
    lemma_report_literals();
    lemma_findings_are_read(r.findings);
    let x1 = "    {\n      \"path\": \""@ + path;
    lemma_text_closed(x1, p0, line(6), "path"@, path, ',', o2);
    let x2 = x1 + "\",\n      \"format\": \""@ + label;
    lemma_text_closed(x2, p1, line(6), "format"@, label, ',', o3);
    let x3 = x2 + "\",\n      \"entries\": "@ + text::decimal(r.entries);
    lemma_number_closed(x3, p2, "entries"@, 6, r.entries, seq![], ',', o4);
    let x4 = x3 + ",\n      \"critical\": "@ + text::decimal(critical);
    lemma_number_closed(x4, p3, "critical"@, 6, critical, seq![], ',', o5);
    let x5 = x4 + ",\n      \"warnings\": "@ + text::decimal(warnings);
    lemma_number_closed(x5, p4, "warnings"@, 6, warnings, seq![], ',', o6);
    let x6 = x5 + ",\n      \"findings\": [\n"@ + json::listed(texts, 0);
    lemma_list_closed(x6, p5, "findings"@, 6, texts, line(4), '}', seq![]);
    let whole = x6 + "      ]\n    }"@;
    assert(whole == p5 + m6 + seq![]);
    assert(whole =~= report_text(r));
    lemma_separator(whole, more);
}

proof fn lemma_lines_are_blank(n: nat)
    ensures
        json::blank(spaces(n)),
        json::blank(line(n)),
{
}

proof fn lemma_report_is_read(r: ReportView, rest: Seq<char>)
    ensures
        json::value(report_text(r) + rest) == Some((report_value(r), rest)),
{
    let path = report::escaped(r.path);
    let label = crate::format::format_label(r.format);
    let critical = scan::count_of(r.findings, Severity::Critical);
    let warnings = scan::count_of(r.findings, Severity::Warning);
    let texts = finding_texts(r.findings);
    let values = r.findings.map_values(|f: FindingView| finding_value(f));
    let m1 = text_member(line(6), "path"@, path, ',');
    let m2 = text_member(line(6), "format"@, label, ',');
    let m3 = number_member("entries"@, 6, r.entries, seq![], ',');
    let m4 = number_member("critical"@, 6, critical, seq![], ',');
    let m5 = number_member("warnings"@, 6, warnings, seq![], ',');
    let m6 = list_member("findings"@, 6, texts, line(4), '}');
    let r5 = m6 + rest;
    let r4 = m5 + r5;
    let r3 = m4 + r4;
    let r2 = m3 + r3;
    let r1 = m2 + r2;
    lemma_keys_are_plain();
    lemma_labels_are_plain(Check::Traversal, Severity::Warning, r.format);
    lemma_lines_are_blank(4);
    lemma_lines_are_blank(6);
    lemma_findings_are_read(r.findings);
    lemma_list_member(line(6), "findings"@, texts, values, spaces(6), line(4), '}', rest);
    lemma_number_member(line(6), "warnings"@, warnings, seq![], ',', r5);
    lemma_number_member(line(6), "critical"@, critical, seq![], ',', r4);
    lemma_number_member(line(6), "entries"@, r.entries, seq![], ',', r3);
    lemma_plain_member(line(6), "format"@, label, ',', r2);
    lemma_escaped_member(line(6), "path"@, r.path, ',', r1);
    let list = report_value(r)->Object_0;
    let (read, _) = json::members(m1 + r1)->0;
    assert(read =~= list);
    json::lemma_object_is_read(spaces(4), m1 + r1, list, rest);
    assert(report_text(r) + rest =~= spaces(4) + (seq!['{'] + (m1 + r1)));
}

/// The reports, each without what separates it from the next.
spec fn report_texts(reports: Seq<ReportView>) -> Seq<Seq<char>> {
    reports.map_values(|r: ReportView| report_text(r))
}

proof fn lemma_reports_are_listed(reports: Seq<ReportView>, n: nat)
    requires
        n <= reports.len(),
    ensures
        report::json_reports(reports, n) + json::listed(report_texts(reports), n as int)
            == report::json_reports(reports, reports.len()),
    decreases reports.len() - n,
{
    let texts = report_texts(reports);
    let so_far = report::json_reports(reports, n);
    if n < reports.len() {
        lemma_reports_are_listed(reports, n + 1);
        lemma_report_text(reports[n as int], n + 1 < reports.len());
        assert(texts[n as int] == report_text(reports[n as int]));
        assert(so_far + json::listed(texts, n as int) =~= report::json_reports(reports, n + 1)
            + json::listed(texts, n as int + 1));
    } else {
        assert(so_far + json::listed(texts, n as int) =~= so_far);
    }
}

proof fn lemma_reports_are_read(reports: Seq<ReportView>)
    ensures
        report::json_reports(reports, reports.len()) == json::listed(report_texts(reports), 0),
        json::each_read(
            report_texts(reports),
            reports.map_values(|r: ReportView| report_value(r)),
        ),
{
    let texts = report_texts(reports);
    lemma_reports_are_listed(reports, 0);
    assert(report::json_reports(reports, 0) + json::listed(texts, 0) =~= json::listed(texts, 0));
    assert forall|i: int, rest: Seq<char>| 0 <= i < texts.len() implies #[trigger] json::value(
        texts[i] + rest,
    ) == Some((reports.map_values(|r: ReportView| report_value(r))[i], rest)) by {
        lemma_report_is_read(reports[i], rest);
    }
}

/// The members of the document.
spec fn run_members(reports: Seq<ReportView>, failures: Seq<FailureView>) -> Seq<char> {
    text_member(line(2), "slipcheck"@, report::escaped(crate::VERSION@), ',') + list_member(
        "archives"@,
        2,
        report_texts(reports),
        seq![],
        ',',
    ) + list_member("errors"@, 2, failure_texts(failures), seq![], ',') + number_member(
        "critical"@,
        2,
        report::total(reports, Severity::Critical),
        seq![],
        ',',
    ) + number_member(
        "warnings"@,
        2,
        report::total(reports, Severity::Warning),
        seq!['\n'],
        '}',
    )
}

proof fn lemma_run_literals()
    ensures
        "{\n  \"slipcheck\": \""@ == seq!['{'] + opening(line(2), "slipcheck"@, seq!['"']),
        "\",\n  \"archives\": [\n"@ == closing(seq!['"'], seq![], ',') + opening(
            line(2),
            "archives"@,
            seq!['[', '\n'],
        ),
        "  ],\n  \"errors\": [\n"@ == closing(spaces(2) + seq![']'], seq![], ',') + opening(
            line(2),
            "errors"@,
            seq!['[', '\n'],
        ),
        "  ],\n  \"critical\": "@ == closing(spaces(2) + seq![']'], seq![], ',') + opening(
            line(2),
            "critical"@,
            seq![],
        ),
        ",\n  \"warnings\": "@ == closing(seq![], seq![], ',') + opening(
            line(2),
            "warnings"@,
            seq![],
        ),
        "\n}"@ == closing(seq![], seq!['\n'], '}') + seq![],
{
    reveal_strlit("{\n  \"slipcheck\": \"");
    reveal_strlit("\",\n  \"archives\": [\n");
    reveal_strlit("  ],\n  \"errors\": [\n");
    reveal_strlit("  ],\n  \"critical\": ");
    reveal_strlit(",\n  \"warnings\": ");
    reveal_strlit("\n}");
    reveal_strlit("slipcheck");
    reveal_strlit("archives");
    reveal_strlit("errors");
    reveal_strlit("critical");
    reveal_strlit("warnings");
}

proof fn lemma_run_text(reports: Seq<ReportView>, failures: Seq<FailureView>)
    ensures
        report::json_text(reports, failures) == seq!['{'] + run_members(reports, failures),
{
    let version = report::escaped(crate::VERSION@);
    let archives = report_texts(reports);
    let errors = failure_texts(failures);
    let critical = report::total(reports, Severity::Critical);
    let warnings = report::total(reports, Severity::Warning);
    let m1 = text_member(line(2), "slipcheck"@, version, ',');
    let m2 = list_member("archives"@, 2, archives, seq![], ',');
    let m3 = list_member("errors"@, 2, errors, seq![], ',');
    let m4 = number_member("critical"@, 2, critical, seq![], ',');
    let m5 = number_member("warnings"@, 2, warnings, seq!['\n'], '}');
    let o2 = opening(line(2), "archives"@, seq!['[', '\n']);
    let o3 = opening(line(2), "errors"@, seq!['[', '\n']);
    let o4 = opening(line(2), "critical"@, seq![]);
    let o5 = opening(line(2), "warnings"@, seq![]);
    let p0 = seq!['{'];
    let p1 = p0 + m1;
    let p2 = p1 + m2;
    let p3 = p2 + m3;
    let p4 = p3 + m4;
    lemma_run_literals();
    lemma_reports_are_read(reports);
    lemma_failures_are_read(failures);
    let x1 = "{\n  \"slipcheck\": \""@ + version;
    lemma_text_closed(x1, p0, line(2), "slipcheck"@, version, ',', o2);
    let x2 = x1 + "\",\n  \"archives\": [\n"@ + json::listed(archives, 0);
    lemma_list_closed(x2, p1, "archives"@, 2, archives, seq![], ',', o3);
    let x3 = x2 + "  ],\n  \"errors\": [\n"@ + json::listed(errors, 0);
    lemma_list_closed(x3, p2, "errors"@, 2, errors, seq![], ',', o4);
    let x4 = x3 + "  ],\n  \"critical\": "@ + text::decimal(critical);
    lemma_number_closed(x4, p3, "critical"@, 2, critical, seq![], ',', o5);
    let x5 = x4 + ",\n  \"warnings\": "@ + text::decimal(warnings);
    lemma_number_closed(x5, p4, "warnings"@, 2, warnings, seq!['\n'], '}', seq![]);
    let whole = x5 + "\n}"@;
    assert(whole == p4 + m5 + seq![]);
    assert(whole =~= seq!['{'] + run_members(reports, failures));
}

proof fn lemma_run_is_read(
    reports: Seq<ReportView>,
    failures: Seq<FailureView>,
    rest: Seq<char>,
)
    ensures
        json::value(seq!['{'] + run_members(reports, failures) + rest) == Some(
            (run_value(reports, failures), rest),
        ),
{
    let archives = report_texts(reports);
    let errors = failure_texts(failures);
    let archive_values = reports.map_values(|r: ReportView| report_value(r));
    let error_values = failures.map_values(|f: FailureView| failure_value(f));
    let critical = report::total(reports, Severity::Critical);
    let warnings = report::total(reports, Severity::Warning);
    let m1 = text_member(line(2), "slipcheck"@, report::escaped(crate::VERSION@), ',');
    let m2 = list_member("archives"@, 2, archives, seq![], ',');
    let m3 = list_member("errors"@, 2, errors, seq![], ',');
    let m4 = number_member("critical"@, 2, critical, seq![], ',');
    let m5 = number_member("warnings"@, 2, warnings, seq!['\n'], '}');
    let r4 = m5 + rest;
    let r3 = m4 + r4;
    let r2 = m3 + r3;
    let r1 = m2 + r2;
    lemma_keys_are_plain();
    lemma_lines_are_blank(2);
    lemma_reports_are_read(reports);
    lemma_failures_are_read(failures);
    lemma_number_member(line(2), "warnings"@, warnings, seq!['\n'], '}', rest);
    lemma_number_member(line(2), "critical"@, critical, seq![], ',', r4);
    lemma_list_member(line(2), "errors"@, errors, error_values, spaces(2), seq![], ',', r3);
    lemma_list_member(line(2), "archives"@, archives, archive_values, spaces(2), seq![], ',', r2);
    lemma_escaped_member(line(2), "slipcheck"@, crate::VERSION@, ',', r1);
    let list = run_value(reports, failures)->Object_0;
    let (read, _) = json::members(m1 + r1)->0;
    assert(read =~= list);
    json::lemma_object_is_read(seq![], m1 + r1, list, rest);
    assert(seq!['{'] + run_members(reports, failures) + rest =~= seq![] + (seq!['{'] + (m1
        + r1)));
}

/// The rendered run is one JSON object, whatever the archives hold: a JSON
/// reader takes all of it, and reads back the version, every archive with its
/// counts, every finding with its path and detail, every error, and the
/// totals, in order.
pub proof fn law_document_is_json(reports: Seq<ReportView>, failures: Seq<FailureView>)
    ensures
        json::document(report::json_text(reports, failures)) == Some(
            run_value(reports, failures),
        ),
{
    let whole = report::json_text(reports, failures);
    lemma_run_text(reports, failures);
    lemma_run_is_read(reports, failures, seq![]);
    assert(whole + seq![] =~= whole);
}

/// The totals of a run are those of its archives, one by one.
pub proof fn law_totals_add_up(a: Seq<ReportView>, b: Seq<ReportView>, severity: Severity)
    ensures
        report::total(a + b, severity) == report::total(a, severity) + report::total(b, severity),
    decreases b.len(),
{
    if b.len() > 0 {
        law_totals_add_up(a, b.drop_last(), severity);
        assert((a + b).drop_last() =~= a + b.drop_last());
        assert((a + b).last() == b.last());
    } else {
        assert(a + b =~= a);
    }
}

/// A number and its noun: plural but for exactly one.
pub proof fn law_nouns_are_counted(n: nat, noun: Seq<char>)
    ensures
        report::counted_text(n, noun) == text::decimal(n) + seq![' '] + noun + (if n == 1 {
            Seq::<char>::empty()
        } else {
            seq!['s']
        }),
{
    reveal_strlit(" ");
    reveal_strlit("s");
    reveal_strlit("");
    assert(" "@ =~= seq![' ']);
    assert("s"@ =~= seq!['s']);
    assert(""@ =~= Seq::<char>::empty());
}

/// Clean is said exactly of an archive without findings.
pub proof fn law_clean_means_no_findings(found: Seq<FindingView>)
    ensures
        report::verdict(
            scan::count_of(found, Severity::Critical),
            scan::count_of(found, Severity::Warning),
        ) == "clean"@ <==> found.len() == 0,
{
    let c = scan::count_of(found, Severity::Critical);
    let w = scan::count_of(found, Severity::Warning);
    scan::law_severities_add_up(found);
    reveal_strlit("clean");
    if c > 0 {
        text::lemma_digits_are_decimal(c);
        assert(text::is_digit(text::decimal(c)[0]));
        assert(report::verdict(c, w)[0] == text::decimal(c)[0]);
    } else if w > 0 {
        text::lemma_digits_are_decimal(w);
        assert(text::is_digit(text::decimal(w)[0]));
        assert(report::verdict(c, w)[0] == text::decimal(w)[0]);
    }
}

/// Every finding has a line of its own, in order, behind the headline: its
/// severity, check, path and detail.
pub proof fn law_findings_are_listed(r: ReportView, n: nat)
    requires
        n <= r.findings.len(),
    ensures
        report::human_text(r) == report::headline(r) + report::finding_lines(r.findings),
        n < r.findings.len() ==> report::finding_lines(r.findings.take(n as int + 1))
            == report::finding_lines(r.findings.take(n as int)) + report::finding_line(
            r.findings[n as int],
        ),
{
    if n < r.findings.len() {
        let longer = r.findings.take(n as int + 1);
        assert(longer.drop_last() =~= r.findings.take(n as int));
        assert(longer.last() == r.findings[n as int]);
    }
}

} // verus!
