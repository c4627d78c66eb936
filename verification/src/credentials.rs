//! Finding the port and remoting token of the running League client: from
//! its command line, or from the lockfile beside its executable.

use vstd::prelude::*;
use vstd::string::*;

use crate::error::LcuError;
use crate::text::{
    char_is_alphanumeric, chars_of, find, find_chars, is_digit, lines, lines_of, occurs_at, run_end, split_on,
    split_text, texts, trim, trimmed, unicode_alphanumeric,
};

verus! {

/// The option of the client command line that gives the port.
pub const PORT_OPTION: &'static str = "--app-port=";

/// The option of the client command line that gives the remoting token.
pub const TOKEN_OPTION: &'static str = "--remoting-auth-token=";

/// A character that may stand in a remoting token.
pub open spec fn is_token_char(c: char) -> bool {
    unicode_alphanumeric(c) || c == '-' || c == '_'
}

/// The run of characters satisfying `pred` right after the first
/// occurrence of `option` in `text`, if the option occurs and the run is
/// not empty.
pub open spec fn option_value(text: Seq<char>, option: Seq<char>, pred: spec_fn(char) -> bool) -> Option<Seq<char>> {
    match find(text, option) {
        None => None,
        Some(i) => {
            let start = i + option.len();
            let end = run_end(text, start, pred);
            if end == start {
                None
            } else {
                Some(text.subrange(start, end))
            }
        },
    }
}

/// The port on a client command line: the digits after `--app-port=`.
pub open spec fn port_on_command_line(text: Seq<char>) -> Option<Seq<char>> {
    option_value(text, PORT_OPTION@, |c: char| is_digit(c))
}

/// The token on a client command line: the letters, digits, `-` and `_`
/// after `--remoting-auth-token=`.
pub open spec fn token_on_command_line(text: Seq<char>) -> Option<Seq<char>> {
    option_value(text, TOKEN_OPTION@, |c: char| is_token_char(c))
}

proof fn lemma_run_end(s: Seq<char>, i: int, j: int, pred: spec_fn(char) -> bool)
    requires
        0 <= i <= j <= s.len(),
        forall|k: int| i <= k < j ==> pred(#[trigger] s[k]),
        j == s.len() || !pred(s[j]),
    ensures
        run_end(s, i, pred) == j,
    decreases j - i,
{
    if i < j {
        lemma_run_end(s, i + 1, j, pred);
    }
}

/// Whether `c` continues a value: a digit when `digits` holds, a token
/// character otherwise.
fn in_value(c: char, digits: bool) -> (r: bool)
    ensures
        digits ==> r == is_digit(c),
        !digits ==> r == is_token_char(c),
{
    if digits {
        '0' <= c && c <= '9'
    } else {
        char_is_alphanumeric(c) || c == '-' || c == '_'
    }
}

/// The value after `option` in the characters `cs` of `text`: digits when
/// `digits` holds, token characters otherwise.
fn value_after(text: &str, cs: &Vec<char>, option: &str, digits: bool) -> (r: Option<String>)
    requires
        cs@ == text@,
    ensures
        digits ==> option_value(text@, option@, |c: char| is_digit(c)) == match r {
            Some(v) => Some(v@),
            None => None::<Seq<char>>,
        },
        !digits ==> option_value(text@, option@, |c: char| is_token_char(c)) == match r {
            Some(v) => Some(v@),
            None => None::<Seq<char>>,
        },
{
    let oc = chars_of(option);
    let n = cs.len();
    let at = find_chars(cs, &oc);
    match at {
        None => None,
        Some(i) => {
            proof {
                crate::text::lemma_find_bounds(text@, option@);
            }
            let start = i + oc.len();
            let mut end = start;
            while end < n && in_value(cs[end], digits)
                invariant
                    n == cs@.len(),
                    start <= end <= n,
                    digits ==> forall|k: int| start <= k < end ==> is_digit(#[trigger] cs@[k]),
                    !digits ==> forall|k: int| start <= k < end ==> is_token_char(#[trigger] cs@[k]),
                decreases n - end,
            {
                end = end + 1;
            }
            proof {
                if digits {
                    lemma_run_end(cs@, start as int, end as int, |c: char| is_digit(c));
                } else {
                    lemma_run_end(cs@, start as int, end as int, |c: char| is_token_char(c));
                }
            }
            if end == start {
                None
            } else {
                Some(String::from_str(text.substring_char(start, end)))
            }
        },
    }
}

/// The port and token on a client command line, when both are there.
pub fn extract_port_token(text: &str) -> (r: Option<(String, String)>)
    ensures
        match (port_on_command_line(text@), token_on_command_line(text@)) {
            (Some(port), Some(token)) => r matches Some((p, t)) && p@ == port && t@ == token,
            _ => r is None,
        },
        r matches Some((p, t)) ==> whole_run_after(text@, PORT_OPTION@, p@, |c: char| '0' <= c && c <= '9')
            && whole_run_after(text@, TOKEN_OPTION@, t@, |c: char| unicode_alphanumeric(c) || c == '-' || c == '_'),
        r is None ==> no_run_after(text@, PORT_OPTION@, |c: char| '0' <= c && c <= '9') || no_run_after(
            text@,
            TOKEN_OPTION@,
            |c: char| unicode_alphanumeric(c) || c == '-' || c == '_',
        ),
{
    proof {
        lemma_port_token_whole_runs(text@);
    }
    let cs = chars_of(text);
    let port = match value_after(text, &cs, PORT_OPTION, true) {
        Some(p) => p,
        None => {
            return None;
        },
    };
    let token = match value_after(text, &cs, TOKEN_OPTION, false) {
        Some(t) => t,
        None => {
            return None;
        },
    };
    Some((port, token))
}

/// The commands that list the client's command line.
pub enum CommandSource {
    Wmic,
    PowerShell,
}

/// The name a command's errors start with.
pub open spec fn command_name(source: CommandSource) -> Seq<char> {
    match source {
        CommandSource::Wmic => "wmic"@,
        CommandSource::PowerShell => "PowerShell"@,
    }
}

/// The credentials found in the output of a command that lists the
/// client's command line: an error when the output is blank (no client
/// runs) or holds no port and token.
pub open spec fn credentials_in_output(output: Seq<char>, source: CommandSource) -> Result<(Seq<char>, Seq<char>), Seq<char>> {
    if trimmed(output).len() == 0 {
        Err(command_name(source) + ": 未找到 LeagueClientUx.exe"@)
    } else {
        match (port_on_command_line(output), token_on_command_line(output)) {
            (Some(port), Some(token)) => Ok((port, token)),
            _ => Err(command_name(source) + ": 命令行中未找到 port/token"@),
        }
    }
}

/// The view of a credential result.
pub open spec fn credentials_view(r: Result<(String, String), String>) -> Result<(Seq<char>, Seq<char>), Seq<char>> {
    match r {
        Ok((p, t)) => Ok((p@, t@)),
        Err(m) => Err(m@),
    }
}

/// The port and token in the output of `source`, or the error message, as
/// `credentials_in_output` states.
pub fn credentials_from_output(output: &str, source: CommandSource) -> (r: Result<(String, String), String>)
    ensures
        credentials_view(r) == credentials_in_output(output@, source),
{
    let mut name = match source {
        CommandSource::Wmic => String::from_str("wmic"),
        CommandSource::PowerShell => String::from_str("PowerShell"),
    };
    let blank = trim(output);
    if blank.as_str().is_empty() {
        name.append(": 未找到 LeagueClientUx.exe");
        return Err(name);
    }
    match extract_port_token(output) {
        Some(found) => Ok(found),
        None => {
            name.append(": 命令行中未找到 port/token");
            Err(name)
        },
    }
}

/// The key of the line that gives the client's executable path.
pub const EXECUTABLE_PATH_KEY: &'static str = "ExecutablePath=";

/// `s` starts with `p`.
pub open spec fn starts_with(s: Seq<char>, p: Seq<char>) -> bool {
    p.len() <= s.len() && s.take(p.len() as int) == p
}

/// `s` without all the leading repetitions of `p` (`str::trim_start_matches`).
pub open spec fn strip_repeated(s: Seq<char>, p: Seq<char>) -> Seq<char>
    decreases s.len(),
{
    if p.len() > 0 && starts_with(s, p) {
        strip_repeated(s.skip(p.len() as int), p)
    } else {
        s
    }
}

/// The first line that starts with `p`.
pub open spec fn first_line_with(ls: Seq<Seq<char>>, p: Seq<char>) -> Option<Seq<char>>
    decreases ls.len(),
{
    if ls.len() == 0 {
        None
    } else if starts_with(ls[0], p) {
        Some(ls[0])
    } else {
        first_line_with(ls.drop_first(), p)
    }
}

/// The executable path in a process listing: the first line that starts
/// with `ExecutablePath=`, without that key and trimmed; empty when there
/// is no such line.
pub open spec fn executable_path(listing: Seq<char>) -> Seq<char> {
    match first_line_with(lines(listing), EXECUTABLE_PATH_KEY@) {
        Some(line) => trimmed(strip_repeated(line, EXECUTABLE_PATH_KEY@)),
        None => Seq::empty(),
    }
}

/// `s` without all the leading repetitions of `p`.
pub fn trim_start_matches(s: &str, p: &str) -> (r: String)
    ensures
        r@ == strip_repeated(s@, p@),
{
    let cs = chars_of(s);
    let pc = chars_of(p);
    let n = cs.len();
    let m = pc.len();
    let mut i: usize = 0;
    assert(s@.skip(0) =~= s@);
    while m > 0 && m <= n - i && crate::text::occurs_at_chars(&cs, &pc, i)
        invariant
            n == cs@.len(),
            m == pc@.len(),
            cs@ == s@,
            pc@ == p@,
            i <= n,
            strip_repeated(s@, p@) == strip_repeated(s@.skip(i as int), p@),
        decreases n - i,
    {
        proof {
            let t = s@.skip(i as int);
            assert(t.take(m as int) =~= s@.subrange(i as int, i + m));
            assert(t.skip(m as int) =~= s@.skip(i + m));
        }
        i = i + m;
    }
    proof {
        let t = s@.skip(i as int);
        if m > 0 && m <= n - i {
            assert(t.take(m as int) =~= s@.subrange(i as int, i + m));
        }
        assert(t =~= s@.subrange(i as int, n as int));
    }
    String::from_str(s.substring_char(i, n))
}

/// The executable path in a process listing, as `executable_path` states.
pub fn executable_path_from_listing(listing: &str) -> (r: String)
    ensures
        r@ == executable_path(listing@),
{
    let ls = lines_of(listing);
    let key = chars_of(EXECUTABLE_PATH_KEY);
    let mut i: usize = 0;
    assert(texts(ls@).skip(0) =~= texts(ls@));
    while i < ls.len()
        invariant
            i <= ls@.len(),
            key@ == EXECUTABLE_PATH_KEY@,
            texts(ls@) == lines(listing@),
            first_line_with(lines(listing@), EXECUTABLE_PATH_KEY@) == first_line_with(texts(ls@).skip(i as int), EXECUTABLE_PATH_KEY@),
        decreases ls@.len() - i,
    {
        let line = chars_of(ls[i].as_str());
        proof {
            assert(texts(ls@).skip(i as int)[0] == ls@[i as int]@);
            assert(texts(ls@).skip(i as int).drop_first() =~= texts(ls@).skip(i + 1));
        }
        if key.len() <= line.len() && crate::text::occurs_at_chars(&line, &key, 0) {
            assert(line@.subrange(0, key@.len() as int) =~= line@.take(key@.len() as int));
            let rest = trim_start_matches(ls[i].as_str(), EXECUTABLE_PATH_KEY);
            return trim(rest.as_str());
        }
        proof {
            if key@.len() <= line@.len() {
                assert(line@.subrange(0, key@.len() as int) =~= line@.take(key@.len() as int));
            }
        }
        i = i + 1;
    }
    String::new()
}

/// The message when no process path is found.
pub open spec fn no_process_path_message() -> Seq<char> {
    "无法获取 LeagueClientUx 进程路径"@
}

/// The process path in the output of the process query: the trimmed
/// output, or the message `no_process_path_message` when it is blank.
pub fn process_path_from_output(output: &str) -> (r: Result<String, String>)
    ensures
        trimmed(output@).len() == 0 ==> (r matches Err(m) && m@ == no_process_path_message()),
        trimmed(output@).len() > 0 ==> (r matches Ok(p) && p@ == trimmed(output@)),
{
    let path = trim(output);
    if path.as_str().is_empty() {
        Err(String::from_str("无法获取 LeagueClientUx 进程路径"))
    } else {
        Ok(path)
    }
}

/// The port and token in a lockfile: the third and fourth of the
/// colon-separated fields of its trimmed content, or an error message that
/// quotes the content when there are fewer than four.
pub open spec fn lockfile_credentials(content: Seq<char>) -> Result<(Seq<char>, Seq<char>), Seq<char>> {
    let fields = split_on(trimmed(content), ':');
    if fields.len() >= 4 {
        Ok((fields[2], fields[3]))
    } else {
        Err("lockfile 格式异常: "@ + content)
    }
}

/// The port and token in a lockfile, as `lockfile_credentials` states.
pub fn parse_lockfile(content: &str) -> (r: Result<(String, String), String>)
    ensures
        credentials_view(r) == lockfile_credentials(content@),
{
    let t = trim(content);
    let fields = split_text(t.as_str(), ':');
    if fields.len() >= 4 {
        assert(texts(fields@)[2] == fields@[2]@ && texts(fields@)[3] == fields@[3]@);
        Ok((fields[2].clone(), fields[3].clone()))
    } else {
        let mut message = String::from_str("lockfile 格式异常: ");
        message.append(content);
        Err(message)
    }
}

/// The detection methods, in the order they are tried.
pub enum CredentialSource {
    Wmic,
    PowerShell,
    Lockfile,
}

/// The methods in the order they are tried: the command line by wmic, then
/// by PowerShell, then the lockfile.
pub fn detection_sources() -> (r: Vec<CredentialSource>)
    ensures
        r@ == seq![CredentialSource::Wmic, CredentialSource::PowerShell, CredentialSource::Lockfile],
{
    let mut r: Vec<CredentialSource> = Vec::new();
    r.push(CredentialSource::Wmic);
    r.push(CredentialSource::PowerShell);
    r.push(CredentialSource::Lockfile);
    assert(r@ =~= seq![CredentialSource::Wmic, CredentialSource::PowerShell, CredentialSource::Lockfile]);
    r
}

/// The label of a method in the failure report.
pub open spec fn source_label(source: CredentialSource) -> Seq<char> {
    match source {
        CredentialSource::Wmic => "wmic"@,
        CredentialSource::PowerShell => "powershell"@,
        CredentialSource::Lockfile => "lockfile"@,
    }
}

/// The line that reports the failure `message` of `source`.
pub fn labeled_failure(source: &CredentialSource, message: &str) -> (r: String)
    ensures
        r@ == source_label(*source) + ": "@ + message@,
{
    let mut line = match source {
        CredentialSource::Wmic => String::from_str("wmic"),
        CredentialSource::PowerShell => String::from_str("powershell"),
        CredentialSource::Lockfile => String::from_str("lockfile"),
    };
    line.append(": ");
    line.append(message);
    line
}

/// The lines joined by `sep`.
pub open spec fn joined(list: Seq<Seq<char>>, sep: Seq<char>) -> Seq<char>
    decreases list.len(),
{
    if list.len() == 0 {
        Seq::empty()
    } else if list.len() == 1 {
        list[0]
    } else {
        joined(list.drop_last(), sep) + sep + list.last()
    }
}

/// The error when every method failed: a heading and the failure lines,
/// one per line.
pub fn detection_failure(failures: &Vec<String>) -> (r: LcuError)
    ensures
        r matches LcuError::Detection(m) && m@ == "所有检测方式均失败:\n"@ + joined(texts(failures@), "\n"@),
{
    let mut all = String::new();
    let mut i: usize = 0;
    while i < failures.len()
        invariant
            i <= failures@.len(),
            all@ =~= joined(texts(failures@).take(i as int), "\n"@),
        decreases failures@.len() - i,
    {
        assert(texts(failures@).take(i + 1).drop_last() =~= texts(failures@).take(i as int));
        if i > 0 {
            all.append("\n");
        } else {
            assert(all@ =~= Seq::<char>::empty());
        }
        all.append(failures[i].as_str());
        i = i + 1;
    }
    assert(texts(failures@).take(failures@.len() as int) =~= texts(failures@));
    let mut message = String::from_str("所有检测方式均失败:\n");
    message.append(all.as_str());
    LcuError::Detection(message)
}

proof fn lemma_run_end_props(s: Seq<char>, i: int, pred: spec_fn(char) -> bool)
    requires
        0 <= i <= s.len(),
    ensures
        i <= run_end(s, i, pred) <= s.len(),
        forall|k: int| i <= k < run_end(s, i, pred) ==> pred(#[trigger] s[k]),
    decreases s.len() - i,
{
    if i < s.len() && pred(s[i]) {
        lemma_run_end_props(s, i + 1, pred);
    }
}

/// The credentials of a command line: the port is a nonempty run of ASCII
/// digits and the token a nonempty run of letters, digits, `-` and `_`,
/// each right after its option.
pub proof fn lemma_command_line_values(text: Seq<char>)
    ensures
        port_on_command_line(text) matches Some(port) ==> port.len() > 0 && forall|k: int|
            0 <= k < port.len() ==> is_digit(#[trigger] port[k]),
        token_on_command_line(text) matches Some(token) ==> token.len() > 0 && forall|k: int|
            0 <= k < token.len() ==> is_token_char(#[trigger] token[k]),
{
    crate::text::lemma_find_bounds(text, PORT_OPTION@);
    crate::text::lemma_find_bounds(text, TOKEN_OPTION@);
    if let Some(i) = find(text, PORT_OPTION@) {
        let start = i + PORT_OPTION@.len();
        lemma_run_end_props(text, start, |c: char| is_digit(c));
        if let Some(port) = port_on_command_line(text) {
            assert forall|k: int| 0 <= k < port.len() implies is_digit(#[trigger] port[k]) by {
                assert(port[k] == text[start + k]);
            }
        }
    }
    if let Some(i) = find(text, TOKEN_OPTION@) {
        let start = i + TOKEN_OPTION@.len();
        lemma_run_end_props(text, start, |c: char| is_token_char(c));
        if let Some(token) = token_on_command_line(text) {
            assert forall|k: int| 0 <= k < token.len() implies is_token_char(#[trigger] token[k]) by {
                assert(token[k] == text[start + k]);
            }
        }
    }
}

/// No piece holds a colon.
pub open spec fn colon_free(fields: Seq<Seq<char>>) -> bool {
    forall|i: int, k: int| 0 <= i < fields.len() && 0 <= k < fields[i].len() ==> #[trigger] fields[i][k] != ':'
}

proof fn lemma_split_single(a: Seq<char>)
    requires
        forall|k: int| 0 <= k < a.len() ==> #[trigger] a[k] != ':',
    ensures
        split_on(a, ':') == seq![a],
{
    crate::text::lemma_find_char(a, ':', a.len() as int);
}

proof fn lemma_split_front(a: Seq<char>, b: Seq<char>)
    requires
        forall|k: int| 0 <= k < a.len() ==> #[trigger] a[k] != ':',
    ensures
        split_on(a + seq![':'] + b, ':') == seq![a] + split_on(b, ':'),
{
    let s = a + seq![':'] + b;
    assert forall|k: int| 0 <= k < a.len() implies #[trigger] s[k] != ':' by {
        assert(s[k] == a[k]);
    }
    crate::text::lemma_find_char(s, ':', a.len() as int);
    assert(s.take(a.len() as int) =~= a);
    assert(s.skip(a.len() as int + 1) =~= b);
}

proof fn lemma_joined_front(fields: Seq<Seq<char>>, sep: Seq<char>)
    requires
        fields.len() >= 2,
    ensures
        joined(fields, sep) == fields[0] + sep + joined(fields.drop_first(), sep),
    decreases fields.len(),
{
    if fields.len() == 2 {
        assert(fields.drop_last() =~= seq![fields[0]]);
        assert(fields.drop_first() =~= seq![fields[1]]);
        assert(joined(fields.drop_last(), sep) == fields[0]);
        assert(joined(fields.drop_first(), sep) == fields[1]);
    } else {
        let front = fields.drop_last();
        lemma_joined_front(front, sep);
        let rest = fields.drop_first();
        assert(front.drop_first() =~= rest.drop_last());
        assert(rest.last() == fields.last());
        assert(joined(rest, sep) == joined(rest.drop_last(), sep) + sep + rest.last());
        let a = fields[0];
        let b = joined(front.drop_first(), sep);
        let c = fields.last();
        assert((a + sep + b) + sep + c =~= a + sep + (b + sep + c));
    }
}

/// Splitting undoes joining: colon-free pieces joined by colons split
/// back into the same pieces.
pub proof fn lemma_split_joined(fields: Seq<Seq<char>>)
    requires
        fields.len() >= 1,
        colon_free(fields),
    ensures
        split_on(joined(fields, seq![':']), ':') == fields,
    decreases fields.len(),
{
    if fields.len() == 1 {
        assert forall|k: int| 0 <= k < fields[0].len() implies #[trigger] fields[0][k] != ':' by {
            assert(fields[0][k] != ':');
        }
        lemma_split_single(fields[0]);
        assert(seq![fields[0]] =~= fields);
    } else {
        let rest = fields.drop_first();
        assert forall|i: int, k: int| 0 <= i < rest.len() && 0 <= k < rest[i].len() implies #[trigger] rest[i][k] != ':' by {
            assert(rest[i] == fields[i + 1]);
        }
        lemma_split_joined(rest);
        lemma_joined_front(fields, seq![':']);
        assert forall|k: int| 0 <= k < fields[0].len() implies #[trigger] fields[0][k] != ':' by {
            assert(fields[0][k] != ':');
        }
        lemma_split_front(fields[0], joined(rest, seq![':']));
        assert(seq![fields[0]] + rest =~= fields);
    }
}

/// The lockfile format: a lockfile whose content is colon-free fields
/// joined by colons, four or more of them, with no white space around,
/// gives its third field as port and its fourth as token.
pub proof fn lemma_lockfile_fields(fields: Seq<Seq<char>>)
    requires
        fields.len() >= 4,
        colon_free(fields),
        ({
            let content = joined(fields, seq![':']);
            content.len() > 0 ==> !crate::text::unicode_whitespace(content[0])
                && !crate::text::unicode_whitespace(content.last())
        }),
    ensures
        lockfile_credentials(joined(fields, seq![':'])) == Ok::<(Seq<char>, Seq<char>), Seq<char>>((fields[2], fields[3])),
{
    let content = joined(fields, seq![':']);
    crate::text::lemma_leading_white(content, 0);
    crate::text::lemma_trailing_white(content, content.len() as int);
    assert(content.skip(0) =~= content);
    assert(content.take(content.len() as int) =~= content);
    assert(trimmed(content) == content);
    lemma_split_joined(fields);
}

/// `value` is the whole run of characters satisfying `pred` that starts
/// right after the first occurrence of `option` in `text`: it is not
/// empty, and the character after it, if any, does not satisfy `pred`.
pub open spec fn whole_run_after(text: Seq<char>, option: Seq<char>, value: Seq<char>, pred: spec_fn(char) -> bool) -> bool {
    match find(text, option) {
        Some(i) => {
            let start = i + option.len();
            let end = start + value.len();
            &&& value.len() > 0
            &&& end <= text.len()
            &&& text.subrange(start, end) == value
            &&& forall|k: int| 0 <= k < value.len() ==> pred(#[trigger] value[k])
            &&& (end == text.len() || !pred(text[end]))
        },
        None => false,
    }
}

/// No run follows the option: it does not occur, or the character right
/// after its first occurrence is missing or does not satisfy `pred`.
pub open spec fn no_run_after(text: Seq<char>, option: Seq<char>, pred: spec_fn(char) -> bool) -> bool {
    match find(text, option) {
        Some(i) => i + option.len() >= text.len() || !pred(text[i + option.len()]),
        None => true,
    }
}

proof fn lemma_option_value_run(text: Seq<char>, option: Seq<char>, pred: spec_fn(char) -> bool)
    ensures
        option_value(text, option, pred) matches Some(v) ==> whole_run_after(text, option, v, pred),
        option_value(text, option, pred) is None ==> no_run_after(text, option, pred),
{
    crate::text::lemma_find_bounds(text, option);
    if let Some(i) = find(text, option) {
        let start = i + option.len();
        lemma_run_end_props(text, start, pred);
        let end = run_end(text, start, pred);
        if end < text.len() && start <= end {
            lemma_run_end_stops(text, start, pred);
        }
        if let Some(v) = option_value(text, option, pred) {
            assert forall|k: int| 0 <= k < v.len() implies pred(#[trigger] v[k]) by {
                assert(v[k] == text[start + k]);
            }
            assert(start + v.len() == end);
        } else if start < text.len() && pred(text[start]) {
            assert(run_end(text, start, pred) == run_end(text, start + 1, pred));
            lemma_run_end_props(text, start + 1, pred);
        }
    }
}

proof fn lemma_run_end_stops(s: Seq<char>, i: int, pred: spec_fn(char) -> bool)
    requires
        0 <= i <= s.len(),
        run_end(s, i, pred) < s.len(),
    ensures
        !pred(s[run_end(s, i, pred)]),
    decreases s.len() - i,
{
    if i < s.len() && pred(s[i]) {
        lemma_run_end_stops(s, i + 1, pred);
    }
}

/// The port and the token are whole runs: the port is all the digits right
/// after the first `--app-port=`, the token all the letters, digits, `-`
/// and `_` right after the first `--remoting-auth-token=`, neither cut
/// short; each is missing exactly when no such character follows its
/// option.
pub proof fn lemma_port_token_whole_runs(text: Seq<char>)
    ensures
        port_on_command_line(text) matches Some(port) ==> whole_run_after(text, PORT_OPTION@, port, |c: char| '0' <= c && c <= '9'),
        port_on_command_line(text) is None ==> no_run_after(text, PORT_OPTION@, |c: char| '0' <= c && c <= '9'),
        token_on_command_line(text) matches Some(token) ==> whole_run_after(
            text,
            TOKEN_OPTION@,
            token,
            |c: char| unicode_alphanumeric(c) || c == '-' || c == '_',
        ),
        token_on_command_line(text) is None ==> no_run_after(
            text,
            TOKEN_OPTION@,
            |c: char| unicode_alphanumeric(c) || c == '-' || c == '_',
        ),
{
    let digit = |c: char| '0' <= c && c <= '9';
    let tok = |c: char| unicode_alphanumeric(c) || c == '-' || c == '_';
    assert(digit =~= (|c: char| is_digit(c)));
    assert(tok =~= (|c: char| is_token_char(c)));
    lemma_option_value_run(text, PORT_OPTION@, digit);
    lemma_option_value_run(text, TOKEN_OPTION@, tok);
}

/// The executable path comes from the first line that starts with the key:
/// a line that `first_line_with` picks starts with the key, and no earlier
/// line does; when it picks none, no line does.
pub proof fn lemma_first_line_with(ls: Seq<Seq<char>>, p: Seq<char>)
    ensures
        first_line_with(ls, p) matches Some(l) ==> exists|i: int|
            0 <= i < ls.len() && ls[i] == l && p.len() <= l.len() && l.take(p.len() as int) == p && forall|j: int|
                0 <= j < i ==> !starts_with(#[trigger] ls[j], p),
        first_line_with(ls, p) is None ==> forall|j: int| 0 <= j < ls.len() ==> !starts_with(#[trigger] ls[j], p),
    decreases ls.len(),
{
    if ls.len() > 0 {
        let rest = ls.drop_first();
        lemma_first_line_with(rest, p);
        if starts_with(ls[0], p) {
            assert(ls[0] == ls[0]);
        } else if let Some(l) = first_line_with(rest, p) {
            let i = choose|i: int|
                0 <= i < rest.len() && rest[i] == l && p.len() <= l.len() && l.take(p.len() as int) == p && forall|j: int|
                    0 <= j < i ==> !starts_with(#[trigger] rest[j], p);
            assert(ls[i + 1] == l);
            assert forall|j: int| 0 <= j < i + 1 implies !starts_with(#[trigger] ls[j], p) by {
                if j > 0 {
                    assert(ls[j] == rest[j - 1]);
                }
            }
        } else {
            assert forall|j: int| 0 <= j < ls.len() implies !starts_with(#[trigger] ls[j], p) by {
                if j > 0 {
                    assert(ls[j] == rest[j - 1]);
                }
            }
        }
    }
}

} // verus!
