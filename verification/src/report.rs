//! Results of a run: the outcome recorded for each request file, the exit
//! decision, and the JUnit XML report.

use vstd::prelude::*;

use crate::text::{chars_of, concat, push_char};

verus! {

/// The outcome of running one request file.
#[derive(Debug)]
pub struct TestResult {
    pub file: String,
    pub method: String,
    pub url: String,
    pub status_code: u16,
    pub time_ms: u128,
    pub error: Option<String>,
}

/// The decimal digit `d`.
pub open spec fn digit(d: nat) -> char {
    (48 + d) as char
}

/// The decimal notation of `n`.
pub open spec fn decimal(n: nat) -> Seq<char>
    decreases n,
{
    if n < 10 {
        seq![digit(n)]
    } else {
        decimal(n / 10) + seq![digit(n % 10)]
    }
}

/// Appends the decimal notation of `n` to `out`.
pub fn push_decimal(out: &mut String, n: u128)
    ensures
        final(out)@ == old(out)@ + decimal(n as nat),
    decreases n,
{
    if n >= 10 {
        push_decimal(out, n / 10);
    }
    let d = (n % 10) as u8;
    let c = (48u8 + d) as char;
    assert(c == digit((n % 10) as nat));
    push_char(out, c);
    assert(out@ =~= old(out)@ + decimal(n as nat));
}

/// The decimal notation of `n`.
pub fn decimal_string(n: u128) -> (r: String)
    ensures
        r@ == decimal(n as nat),
{
    let mut r = String::new();
    push_decimal(&mut r, n);
    assert(r@ =~= decimal(n as nat));
    r
}

/// The outcome of a request that got a response: a status outside 200..=299
/// is a failure.
pub fn outcome_of_response(
    file: String,
    method: String,
    url: String,
    status: u16,
    time_ms: u128,
) -> (r: TestResult)
    ensures
        r.file == file,
        r.method == method,
        r.url == url,
        r.status_code == status,
        r.time_ms == time_ms,
        200 <= status < 300 ==> r.error is None,
        !(200 <= status < 300) ==> (r.error matches Some(e) && e@ == "HTTP Status "@ + decimal(
            status as nat,
        )),
{
    let error = if 200 <= status && status < 300 {
        None
    } else {
        let mut e = "HTTP Status ".to_owned();
        push_decimal(&mut e, status as u128);
        Some(e)
    };
    TestResult { file, method, url, status_code: status, time_ms, error }
}

/// The outcome of a request that failed with the message `message`.
pub fn outcome_of_failure(file: String, method: String, url: String, message: String) -> (r:
    TestResult)
    ensures
        r.file == file,
        r.method == method,
        r.url == url,
        r.status_code == 0,
        r.time_ms == 0,
        r.error == Some(message),
{
    TestResult { file, method, url, status_code: 0, time_ms: 0, error: Some(message) }
}

/// The outcome of a request file that could not be parsed, with the parse
/// error's message.
pub fn outcome_of_parse_failure(file: String, message: &str) -> (r: TestResult)
    ensures
        r.file == file,
        r.method@ == "UNKNOWN"@,
        r.url@ == "UNKNOWN"@,
        r.status_code == 0,
        r.time_ms == 0,
        r.error matches Some(e) && e@ == "Parse error: "@ + message@,
{
    TestResult {
        file,
        method: "UNKNOWN".to_owned(),
        url: "UNKNOWN".to_owned(),
        status_code: 0,
        time_ms: 0,
        error: Some(concat("Parse error: ", message)),
    }
}

/// Some result is a failure.
pub open spec fn some_failed(results: Seq<TestResult>) -> bool {
    exists|i: int| 0 <= i < results.len() && (#[trigger] results[i]).error is Some
}

/// Whether some result is a failure: the run then exits with a failure code.
pub fn any_failed(results: &Vec<TestResult>) -> (r: bool)
    ensures
        r == some_failed(results@),
{
    let mut i: usize = 0;
    while i < results.len()
        invariant
            i <= results.len(),
            forall|j: int| 0 <= j < i ==> (#[trigger] results@[j]).error is None,
        decreases results.len() - i,
    {
        if results[i].error.is_some() {
            return true;
        }
        i = i + 1;
    }
    false
}

/// The total time of `results`, in milliseconds.
pub open spec fn total_time(results: Seq<TestResult>) -> nat
    decreases results.len(),
{
    if results.len() == 0 {
        0
    } else {
        total_time(results.drop_last()) + results.last().time_ms as nat
    }
}

/// The total time of `results` in milliseconds, or `None` where it exceeds
/// `u128::MAX`.
pub fn total_time_ms(results: &Vec<TestResult>) -> (r: Option<u128>)
    ensures
        match r {
            Some(t) => t == total_time(results@),
            None => total_time(results@) > u128::MAX,
        },
{
    let mut sum: u128 = 0;
    let mut i: usize = 0;
    assert(results@.take(0) =~= Seq::<TestResult>::empty());
    while i < results.len()
        invariant
            i <= results.len(),
            sum == total_time(results@.take(i as int)),
        decreases results.len() - i,
    {
        assert(results@.take(i + 1).drop_last() =~= results@.take(i as int));
        match sum.checked_add(results[i].time_ms) {
            Some(s) => {
                sum = s;
            },
            None => {
                proof {
                    lemma_total_time_grows(results@, i + 1);
                }
                return None;
            },
        }
        i = i + 1;
    }
    assert(results@.take(results.len() as int) =~= results@);
    Some(sum)
}

/// The total time of a prefix is at most that of the whole.
proof fn lemma_total_time_grows(results: Seq<TestResult>, k: int)
    requires
        0 <= k <= results.len(),
    ensures
        total_time(results.take(k)) <= total_time(results),
    decreases results.len() - k,
{
    if k < results.len() {
        lemma_total_time_grows(results, k + 1);
        assert(results.take(k + 1).drop_last() =~= results.take(k));
    } else {
        assert(results.take(k) =~= results);
    }
}

/// The number of failures among `results`.
pub open spec fn failure_count(results: Seq<TestResult>) -> nat
    decreases results.len(),
{
    if results.len() == 0 {
        0
    } else {
        failure_count(results.drop_last()) + if results.last().error is Some {
            1nat
        } else {
            0nat
        }
    }
}

/// How a character is written in XML text and attribute values.
pub open spec fn xml_escape_char(c: char) -> Seq<char> {
    if c == '&' {
        "&amp;"@
    } else if c == '<' {
        "&lt;"@
    } else if c == '>' {
        "&gt;"@
    } else if c == '"' {
        "&quot;"@
    } else if c == '\'' {
        "&apos;"@
    } else {
        seq![c]
    }
}

/// `s` escaped for XML: each character written as `xml_escape_char` says.
pub open spec fn xml_escaped(s: Seq<char>) -> Seq<char>
    decreases s.len(),
{
    if s.len() == 0 {
        Seq::empty()
    } else {
        xml_escaped(s.drop_last()) + xml_escape_char(s.last())
    }
}

/// Escapes the XML special characters `&`, `<`, `>`, `"` and `'` of `s`.
pub fn escape_xml(s: &str) -> (r: String)
    ensures
        r@ == xml_escaped(s@),
{
    let cs = chars_of(s);
    let mut out = String::new();
    let mut i: usize = 0;
    assert(cs@.take(0) =~= Seq::<char>::empty());
    while i < cs.len()
        invariant
            i <= cs.len(),
            out@ == xml_escaped(cs@.take(i as int)),
        decreases cs.len() - i,
    {
        let c = cs[i];
        if c == '&' {
            out.append("&amp;");
        } else if c == '<' {
            out.append("&lt;");
        } else if c == '>' {
            out.append("&gt;");
        } else if c == '"' {
            out.append("&quot;");
        } else if c == '\'' {
            out.append("&apos;");
        } else {
            push_char(&mut out, c);
        }
        assert(cs@.take(i + 1).drop_last() =~= cs@.take(i as int));
        i = i + 1;
    }
    assert(cs@.take(cs.len() as int) =~= cs@);
    out
}

/// The JUnit `testcase` element of a result that took `time` seconds.
pub open spec fn junit_case(r: TestResult, time: Seq<char>) -> Seq<char> {
    let name = xml_escaped(r.method@ + " "@ + r.url@);
    let classname = xml_escaped(r.file@);
    match r.error {
        Some(e) => "    <testcase name=\""@ + name + "\" classname=\""@ + classname + "\" time=\""@
            + time + "\">\n"@ + "      <failure message=\""@ + xml_escaped(e@) + "\">"@
            + xml_escaped(e@) + "</failure>\n"@ + "    </testcase>\n"@,
        None => "    <testcase name=\""@ + name + "\" classname=\""@ + classname + "\" time=\""@
            + time + "\" />\n"@,
    }
}

/// The `testcase` elements of `results`, the `i`-th taking `times[i]` seconds.
pub open spec fn junit_cases(results: Seq<TestResult>, times: Seq<Seq<char>>) -> Seq<char>
    decreases results.len(),
{
    if results.len() == 0 || times.len() == 0 {
        Seq::empty()
    } else {
        junit_cases(results.drop_last(), times.drop_last()) + junit_case(
            results.last(),
            times.last(),
        )
    }
}

/// The JUnit XML report of `results`, with the times of the results and the
/// total time, in seconds, as texts.
pub open spec fn junit_xml(results: Seq<TestResult>, times: Seq<Seq<char>>, total: Seq<char>) -> Seq<
    char,
> {
    "<?xml version=\"1.0\" encoding=\"UTF-8\"?>\n"@
        + "<testsuites>\n  <testsuite name=\"relay\" tests=\""@ + decimal(results.len())
        + "\" failures=\""@ + decimal(failure_count(results)) + "\" errors=\"0\" time=\""@ + total
        + "\">\n"@ + junit_cases(results, times) + "  </testsuite>\n</testsuites>\n"@
}

/// The texts of a list of strings.
pub open spec fn texts(v: Seq<String>) -> Seq<Seq<char>> {
    v.map_values(|t: String| t@)
}

/// The number of failures among `results`.
fn count_failures(results: &Vec<TestResult>) -> (n: usize)
    ensures
        n == failure_count(results@),
{
    let mut n: usize = 0;
    let mut i: usize = 0;
    assert(results@.take(0) =~= Seq::<TestResult>::empty());
    while i < results.len()
        invariant
            i <= results.len(),
            n == failure_count(results@.take(i as int)),
            n <= i,
        decreases results.len() - i,
    {
        assert(results@.take(i + 1).drop_last() =~= results@.take(i as int));
        if results[i].error.is_some() {
            n = n + 1;
        }
        i = i + 1;
    }
    assert(results@.take(results.len() as int) =~= results@);
    n
}

/// Appends the `testcase` element of `r`, which took `time` seconds.
fn push_junit_case(out: &mut String, r: &TestResult, time: &String)
    ensures
        final(out)@ == old(out)@ + junit_case(*r, time@),
{
    let label = concat(concat(r.method.as_str(), " ").as_str(), r.url.as_str());
    let name = escape_xml(label.as_str());
    let classname = escape_xml(r.file.as_str());
    out.append("    <testcase name=\"");
    out.append(name.as_str());
    out.append("\" classname=\"");
    out.append(classname.as_str());
    out.append("\" time=\"");
    out.append(time.as_str());
    match &r.error {
        Some(e) => {
            let msg = escape_xml(e.as_str());
            out.append("\">\n");
            out.append("      <failure message=\"");
            out.append(msg.as_str());
            out.append("\">");
            out.append(msg.as_str());
            out.append("</failure>\n");
            out.append("    </testcase>\n");
        },
        None => {
            out.append("\" />\n");
        },
    }
    assert(out@ =~= old(out)@ + junit_case(*r, time@));
}

/// The JUnit XML report of `results`; `times[i]` is the time of
/// `results[i]` and `total` the total time, in seconds.
pub fn junit_report(results: &Vec<TestResult>, times: &Vec<String>, total: &str) -> (r: String)
    requires
        times.len() == results.len(),
    ensures
        r@ == junit_xml(results@, texts(times@), total@),
{
    let mut out = "<?xml version=\"1.0\" encoding=\"UTF-8\"?>\n".to_owned();
    out.append("<testsuites>\n  <testsuite name=\"relay\" tests=\"");
    push_decimal(&mut out, results.len() as u128);
    out.append("\" failures=\"");
    let failures = count_failures(results);
    push_decimal(&mut out, failures as u128);
    out.append("\" errors=\"0\" time=\"");
    out.append(total);
    out.append("\">\n");
    let ghost head = out@;
    let ghost ts = texts(times@);
    let mut i: usize = 0;
    assert(results@.take(0) =~= Seq::<TestResult>::empty());
    assert(out@ =~= head + junit_cases(results@.take(0), ts.take(0)));
    while i < results.len()
        invariant
            i <= results.len() == times.len(),
            ts == texts(times@),
            out@ == head + junit_cases(results@.take(i as int), ts.take(i as int)),
        decreases results.len() - i,
    {
        push_junit_case(&mut out, &results[i], &times[i]);
        assert(results@.take(i + 1).drop_last() =~= results@.take(i as int));
        assert(ts.take(i + 1).drop_last() =~= ts.take(i as int));
        assert(ts[i as int] == times@[i as int]@);
        assert(out@ =~= head + junit_cases(results@.take(i + 1), ts.take(i + 1)));
        i = i + 1;
    }
    assert(results@.take(results.len() as int) =~= results@);
    assert(ts.take(results.len() as int) =~= ts);
    out.append("  </testsuite>\n</testsuites>\n");
    assert(out@ =~= junit_xml(results@, ts, total@));
    out
}

/// The characters that XML escaping rewrites.
pub open spec fn is_xml_special(c: char) -> bool {
    c == '&' || c == '<' || c == '>' || c == '"' || c == '\''
}

/// Escaped text holds no `<`, `>`, `"` or `'`, so it can stand in element
/// text and in quoted attribute values.
pub proof fn lemma_escaped_has_no_markup(s: Seq<char>)
    ensures
        forall|i: int|
            0 <= i < xml_escaped(s).len() ==> {
                let c = #[trigger] xml_escaped(s)[i];
                c != '<' && c != '>' && c != '"' && c != '\''
            },
    decreases s.len(),
{
    reveal_strlit("&amp;");
    reveal_strlit("&lt;");
    reveal_strlit("&gt;");
    reveal_strlit("&quot;");
    reveal_strlit("&apos;");
    if s.len() > 0 {
        lemma_escaped_has_no_markup(s.drop_last());
        let p = xml_escaped(s.drop_last());
        let q = xml_escape_char(s.last());
        assert forall|i: int| 0 <= i < xml_escaped(s).len() implies {
            let c = #[trigger] xml_escaped(s)[i];
            c != '<' && c != '>' && c != '"' && c != '\''
        } by {
            if i >= p.len() {
                assert(xml_escaped(s)[i] == q[i - p.len()]);
            } else {
                assert(xml_escaped(s)[i] == p[i]);
            }
        }
    }
}

/// Text without any of the five special characters is left as it is.
pub proof fn lemma_plain_text_not_escaped(s: Seq<char>)
    requires
        forall|i: int| 0 <= i < s.len() ==> !is_xml_special(#[trigger] s[i]),
    ensures
        xml_escaped(s) == s,
    decreases s.len(),
{
    if s.len() > 0 {
        lemma_plain_text_not_escaped(s.drop_last());
        assert(s.drop_last() + seq![s.last()] =~= s);
    }
}

/// The report counts a failure exactly when the run fails.
pub proof fn lemma_failures_iff_failed(results: Seq<TestResult>)
    ensures
        (failure_count(results) > 0) == some_failed(results),
    decreases results.len(),
{
    if results.len() > 0 {
        let init = results.drop_last();
        lemma_failures_iff_failed(init);
        if some_failed(init) {
            let i = choose|i: int| 0 <= i < init.len() && (#[trigger] init[i]).error is Some;
            assert(results[i] == init[i]);
        }
        if some_failed(results) && results.last().error is None {
            let i = choose|i: int| 0 <= i < results.len() && (#[trigger] results[i]).error is Some;
            assert(init[i] == results[i]);
        }
        if results.last().error is Some {
            assert(results[results.len() - 1].error is Some);
        }
    }
}

/// The failures counted are exactly the results that carry an error.
pub proof fn lemma_failure_count_is_errors(results: Seq<TestResult>)
    ensures
        failure_count(results) == results.filter(|r: TestResult| r.error is Some).len(),
    decreases results.len(),
{
    let pred = |r: TestResult| r.error is Some;
    if results.len() == 0 {
        assert(results.filter(pred) =~= Seq::<TestResult>::empty()) by {
            reveal(Seq::filter);
        }
    } else {
        let init = results.drop_last();
        lemma_failure_count_is_errors(init);
        init.lemma_filter_push(results.last(), pred);
        assert(init.push(results.last()) =~= results);
    }
}

/// Counting failures is additive over a run split in two, and one result
/// counts one exactly when it carries an error.
pub proof fn lemma_failure_count_additive(a: Seq<TestResult>, b: Seq<TestResult>)
    ensures
        failure_count(a + b) == failure_count(a) + failure_count(b),
        failure_count(Seq::<TestResult>::empty()) == 0,
        b.len() == 1 ==> failure_count(b) == if b[0].error is Some {
            1nat
        } else {
            0nat
        },
    decreases b.len(),
{
    if b.len() == 1 {
        assert(b.drop_last() =~= Seq::<TestResult>::empty());
    }
    if b.len() == 0 {
        assert(a + b =~= a);
    } else {
        lemma_failure_count_additive(a, b.drop_last());
        assert((a + b).drop_last() =~= a + b.drop_last());
        assert((a + b).last() == b.last());
    }
}

/// A run fails when a part of it fails: for a run split in two, it fails
/// exactly when one of the parts does; an empty run does not fail, and one
/// result fails exactly when it carries an error.
pub proof fn lemma_some_failed_parts(a: Seq<TestResult>, b: Seq<TestResult>)
    ensures
        some_failed(a + b) == (some_failed(a) || some_failed(b)),
        !some_failed(Seq::<TestResult>::empty()),
        b.len() == 1 ==> (some_failed(b) == b[0].error is Some),
{
    let s = a + b;
    if some_failed(s) {
        let i = choose|i: int| 0 <= i < s.len() && (#[trigger] s[i]).error is Some;
        if i < a.len() {
            assert(a[i] == s[i]);
        } else {
            assert(b[i - a.len()] == s[i]);
        }
    }
    if some_failed(a) {
        let i = choose|i: int| 0 <= i < a.len() && (#[trigger] a[i]).error is Some;
        assert(s[i] == a[i]);
    }
    if some_failed(b) {
        let i = choose|i: int| 0 <= i < b.len() && (#[trigger] b[i]).error is Some;
        assert(s[i + a.len()] == b[i]);
    }
    if b.len() == 1 && b[0].error is Some {
        assert(b[0].error is Some);
    }
}

/// The total time is additive over a run split in two, and that of one result
/// is its time.
pub proof fn lemma_total_time_additive(a: Seq<TestResult>, b: Seq<TestResult>)
    ensures
        total_time(a + b) == total_time(a) + total_time(b),
        total_time(Seq::<TestResult>::empty()) == 0,
        b.len() == 1 ==> total_time(b) == b[0].time_ms,
    decreases b.len(),
{
    if b.len() == 1 {
        assert(b.drop_last() =~= Seq::<TestResult>::empty());
    }
    if b.len() == 0 {
        assert(a + b =~= a);
    } else {
        lemma_total_time_additive(a, b.drop_last());
        assert((a + b).drop_last() =~= a + b.drop_last());
        assert((a + b).last() == b.last());
    }
}

/// Escaping works character by character: the escape of a concatenation is
/// the concatenation of the escapes; the five special characters become their
/// entities and every other character stays as it is.
pub proof fn lemma_escape_by_character(a: Seq<char>, b: Seq<char>, c: char)
    ensures
        xml_escaped(a + b) == xml_escaped(a) + xml_escaped(b),
        xml_escaped(Seq::<char>::empty()) == Seq::<char>::empty(),
        xml_escaped(seq![c]) == if c == '&' {
            "&amp;"@
        } else if c == '<' {
            "&lt;"@
        } else if c == '>' {
            "&gt;"@
        } else if c == '"' {
            "&quot;"@
        } else if c == '\'' {
            "&apos;"@
        } else {
            seq![c]
        },
    decreases b.len(),
{
    assert(seq![c].drop_last() =~= Seq::<char>::empty());
    assert(seq![c].last() == c);
    assert(xml_escaped(Seq::<char>::empty()) == Seq::<char>::empty());
    assert(Seq::<char>::empty() + xml_escape_char(c) =~= xml_escape_char(c));
    assert(xml_escaped(seq![c]) == xml_escape_char(c));
    if b.len() == 0 {
        assert(a + b =~= a);
        assert(xml_escaped(a) + Seq::<char>::empty() =~= xml_escaped(a));
    } else {
        lemma_escape_by_character(a, b.drop_last(), c);
        assert((a + b).drop_last() =~= a + b.drop_last());
        assert((a + b).last() == b.last());
        assert(xml_escaped(a + b) =~= xml_escaped(a) + xml_escaped(b));
    }
}

/// The decimal notation of a number below ten is its digit, and that of a
/// larger number is the notation of its tens followed by the digit of its
/// units.
pub proof fn lemma_decimal_digits(n: nat)
    ensures
        n < 10 ==> decimal(n) == seq![(48 + n) as char],
        n >= 10 ==> decimal(n) == decimal(n / 10) + seq![(48 + n % 10) as char],
{
}

} // verus!
