//! The input driver's decisions: assembling logical lines from physical
//! ones, recognising commands, and building the frames to broadcast. Reading
//! stdin, spawning subprocesses and the blob client stay outside this crate.

use vstd::prelude::*;
use vstd::string::*;

use crate::MAX_FILESIZE;
use crate::structs::Msg;

verus! {

/// ASCII whitespace, as trimmed from line ends.
pub open spec fn is_ws(c: char) -> bool {
    c == ' ' || c == '\t' || c == '\r' || c == '\n'
}

/// A line with its trailing ASCII whitespace removed.
pub open spec fn trim_end_spec(s: Seq<char>) -> Seq<char>
    decreases s.len(),
{
    if s.len() == 0 {
        s
    } else if is_ws(s.last()) {
        trim_end_spec(s.drop_last())
    } else {
        s
    }
}

/// A line with its trailing end-of-line characters removed.
pub open spec fn trim_eol_spec(s: Seq<char>) -> Seq<char>
    decreases s.len(),
{
    if s.len() == 0 {
        s
    } else if s.last() == '\r' || s.last() == '\n' {
        trim_eol_spec(s.drop_last())
    } else {
        s
    }
}

/// The length that survives trimming trailing ASCII whitespace.
fn trim_end_len(s: &str) -> (k: usize)
    ensures
        k <= s@.len(),
        trim_end_spec(s@) == s@.subrange(0, k as int),
{
    let mut k = s.unicode_len();
    proof {
        assert(s@.subrange(0, k as int) =~= s@);
    }
    while k > 0
        invariant
            k <= s@.len(),
            trim_end_spec(s@) == trim_end_spec(s@.subrange(0, k as int)),
        decreases k,
    {
        let c = s.get_char(k - 1);
        if !(c == ' ' || c == '\t' || c == '\r' || c == '\n') {
            proof {
                assert(s@.subrange(0, k as int).last() == c);
            }
            return k;
        }
        proof {
            let cur = s@.subrange(0, k as int);
            assert(cur.last() == c);
            assert(cur.drop_last() =~= s@.subrange(0, k - 1));
        }
        k = k - 1;
    }
    k
}

/// The length that survives trimming trailing end-of-line characters.
fn trim_eol_len(s: &str) -> (k: usize)
    ensures
        k <= s@.len(),
        trim_eol_spec(s@) == s@.subrange(0, k as int),
{
    let mut k = s.unicode_len();
    proof {
        assert(s@.subrange(0, k as int) =~= s@);
    }
    while k > 0
        invariant
            k <= s@.len(),
            trim_eol_spec(s@) == trim_eol_spec(s@.subrange(0, k as int)),
        decreases k,
    {
        let c = s.get_char(k - 1);
        if !(c == '\r' || c == '\n') {
            proof {
                assert(s@.subrange(0, k as int).last() == c);
            }
            return k;
        }
        proof {
            let cur = s@.subrange(0, k as int);
            assert(cur.last() == c);
            assert(cur.drop_last() =~= s@.subrange(0, k - 1));
        }
        k = k - 1;
    }
    k
}

/// Whether the physical line asks for continuation: after stripping the
/// line ending it still ends in a space.
pub open spec fn continues(line: Seq<char>) -> bool {
    trim_eol_spec(line).len() > 0 && trim_eol_spec(line).last() == ' '
}

/// Feeds one physical line into the assembly buffer. A line whose trimmed
/// form ends in a space continues the logical message: its trimmed text and
/// a newline go into the buffer. Any other line completes the message: the
/// buffer plus the line, trimmed at the end, comes out and the buffer is
/// cleared.
pub fn feed_line(buffer: &mut String, line: &str) -> (r: Option<String>)
    ensures
        continues(line@) ==> {
            &&& r is None
            &&& final(buffer)@ == old(buffer)@ + trim_end_spec(line@) + seq!['\n']
        },
        !continues(line@) ==> {
            &&& r matches Some(text) && text@ == trim_end_spec(old(buffer)@ + line@)
            &&& final(buffer)@ == Seq::<char>::empty()
        },
{
    let eol_len = trim_eol_len(line);
    let is_cont = if eol_len > 0 {
        let c = line.get_char(eol_len - 1);
        proof {
            assert(trim_eol_spec(line@).last() == c);
        }
        c == ' '
    } else {
        false
    };
    if is_cont {
        let k = trim_end_len(line);
        let trimmed = line.substring_char(0, k);
        buffer.append(trimmed);
        buffer.append("\n");
        proof {
            reveal_strlit("\n");
            assert("\n"@ =~= seq!['\n']);
        }
        None
    } else {
        buffer.append(line);
        let whole = buffer.as_str();
        let k = trim_end_len(whole);
        let text = String::from_str(whole.substring_char(0, k));
        *buffer = String::new();
        Some(text)
    }
}

/// A line with its leading ASCII whitespace removed.
pub open spec fn trim_start_spec(s: Seq<char>) -> Seq<char>
    decreases s.len(),
{
    if s.len() == 0 {
        s
    } else if is_ws(s[0]) {
        trim_start_spec(s.drop_first())
    } else {
        s
    }
}

/// A line with whitespace removed from both ends.
pub open spec fn trim_spec(s: Seq<char>) -> Seq<char> {
    trim_start_spec(trim_end_spec(s))
}

/// The line a split works on: trimmed at both ends when asked.
pub open spec fn split_base(s: Seq<char>, trim: bool) -> Seq<char> {
    if trim {
        trim_spec(s)
    } else {
        s
    }
}

/// A suffix that starts past a whitespace-only prefix, at a non-whitespace
/// character (or the end), is the start-trimmed form.
proof fn lemma_trim_start_prefix(u: Seq<char>, k: int)
    requires
        0 <= k <= u.len(),
        forall|j: int| 0 <= j < k ==> is_ws(#[trigger] u[j]),
        k < u.len() ==> !is_ws(u[k]),
    ensures
        trim_start_spec(u) == u.subrange(k, u.len() as int),
    decreases k,
{
    if k == 0 {
        if u.len() == 0 {
            assert(u.subrange(0, 0) =~= u);
        } else {
            assert(u.subrange(0, u.len() as int) =~= u);
        }
    } else {
        lemma_trim_start_prefix(u.drop_first(), k - 1);
        assert(u.drop_first().subrange(k - 1, u.len() - 1) =~= u.subrange(k, u.len() as int));
    }
}

/// The bounds of the whitespace-trimmed middle of a line: everything before
/// `r.0` and from `r.1` on is whitespace, and the middle is `trim_spec`.
fn trim_bounds(s: &str) -> (r: (usize, usize))
    ensures
        r.0 <= r.1 <= s@.len(),
        trim_spec(s@) == s@.subrange(r.0 as int, r.1 as int),
{
    let end = trim_end_len(s);
    let start = ws_prefix_len(s, end);
    proof {
        let u = s@.subrange(0, end as int);
        assert forall|j: int| 0 <= j < start implies is_ws(#[trigger] u[j]) by {
            assert(u[j] == s@[j]);
        }
        if start < end {
            assert(u[start as int] == s@[start as int]);
        }
        lemma_trim_start_prefix(u, start as int);
        assert(u.subrange(start as int, end as int) =~= s@.subrange(start as int, end as int));
    }
    (start, end)
}

/// The length of the whitespace prefix of `s` before position `end`.
fn ws_prefix_len(s: &str, end: usize) -> (start: usize)
    requires
        end <= s@.len(),
    ensures
        start <= end,
        forall|j: int| 0 <= j < start ==> is_ws(#[trigger] s@[j]),
        start < end ==> !is_ws(s@[start as int]),
{
    let mut start: usize = 0;
    while start < end
        invariant
            start <= end <= s@.len(),
            forall|j: int| 0 <= j < start ==> is_ws(#[trigger] s@[j]),
        decreases end - start,
    {
        let c = s.get_char(start);
        if !(c == ' ' || c == '\t' || c == '\r' || c == '\n') {
            return start;
        }
        start = start + 1;
    }
    start
}

/// The first run of non-space characters.
pub open spec fn first_token(s: Seq<char>) -> Seq<char>
    decreases s.len(),
{
    if s.len() == 0 {
        s
    } else if s[0] == ' ' {
        Seq::empty()
    } else {
        seq![s[0]] + first_token(s.drop_first())
    }
}

/// A space-free prefix ending at a space (or the end) is the first token.
proof fn lemma_first_token_prefix(s: Seq<char>, i: int)
    requires
        0 <= i <= s.len(),
        forall|j: int| 0 <= j < i ==> s[j] != ' ',
        i < s.len() ==> s[i] == ' ',
    ensures
        first_token(s) == s.subrange(0, i),
    decreases i,
{
    if i == 0 {
        if s.len() == 0 {
            assert(s.subrange(0, 0) =~= s);
        } else {
            assert(first_token(s) =~= s.subrange(0, 0));
        }
    } else {
        lemma_first_token_prefix(s.drop_first(), i - 1);
        assert(s.drop_first().subrange(0, i - 1) =~= s.subrange(1, i));
        assert(first_token(s) == seq![s[0]] + s.subrange(1, i));
        assert(seq![s[0]] + s.subrange(1, i) =~= s.subrange(0, i));
    }
}

/// Splits a line at its first space: the head never holds a space, and with
/// `trim` the line is first stripped of ASCII whitespace at both ends, so a
/// line of leading spaces still yields its first word as the head.
/// The position of the first space at or after `start`, up to `end`.
fn token_end(s: &str, start: usize, end: usize) -> (i: usize)
    requires
        start <= end <= s@.len(),
    ensures
        start <= i <= end,
        forall|j: int| start <= j < i ==> s@[j] != ' ',
        i < end ==> s@[i as int] == ' ',
{
    let mut i: usize = start;
    while i < end
        invariant
            start <= i <= end <= s@.len(),
            forall|j: int| start <= j < i ==> s@[j] != ' ',
        decreases end - i,
    {
        if s.get_char(i) == ' ' {
            return i;
        }
        i = i + 1;
    }
    i
}

/// Splits a line at its first space: the head never holds a space, and with
/// `trim` the line is first stripped of ASCII whitespace at both ends, so a
/// line of leading spaces still yields its first word as the head.
pub fn split_first_space<'a>(s: &'a str, trim: bool) -> (r: (String, Option<String>))
    ensures
        r.0@ == first_token(split_base(s@, trim)),
        r.1 is Some <==> first_token(split_base(s@, trim)).len() < split_base(s@, trim).len(),
        r.1 matches Some(rest) ==> rest@ == split_base(s@, trim).subrange(
            first_token(split_base(s@, trim)).len() + 1 as int,
            split_base(s@, trim).len() as int,
        ),
{
    let (start, end) = if trim {
        trim_bounds(s)
    } else {
        (0usize, s.unicode_len())
    };
    let ghost t = split_base(s@, trim);
    proof {
        if !trim {
            assert(s@.subrange(0, end as int) =~= s@);
        }
        assert(t == s@.subrange(start as int, end as int));
    }
    let i = token_end(s, start, end);
    proof {
        assert forall|j: int| 0 <= j < i - start implies t[j] != ' ' by {
            assert(t[j] == s@[start + j]);
        }
        if i < end {
            assert(t[i - start] == s@[i as int]);
        }
        lemma_first_token_prefix(t, i - start);
    }
    let head = String::from_str(s.substring_char(start, i));
    proof {
        assert(s@.subrange(start as int, i as int) =~= t.subrange(0, i - start));
        assert(head@ == first_token(t));
    }
    if i < end {
        let rest = String::from_str(s.substring_char(i + 1, end));
        proof {
            assert(s@.subrange(i + 1, end as int) =~= t.subrange(i + 1 - start, t.len() as int));
            assert(first_token(t).len() == i - start);
            assert(rest@ == t.subrange(first_token(t).len() + 1 as int, t.len() as int));
        }
        (head, Some(rest))
    } else {
        (head, None)
    }
}

/// Compares a string against a literal.
fn same_string(a: &String, b: &str) -> (r: bool)
    ensures
        r == (a@ == b@),
{
    let bs = String::from_str(b);
    a.eq(&bs)
}

/// What the shell-style splitter makes of a command line: `None` on
/// unbalanced quoting, the words otherwise.
pub uninterp spec fn shell_split(s: Seq<char>) -> Option<Seq<Seq<char>>>;

/// Relies on shell_words::split: a pure function of the characters, `Err`
/// exactly on unbalanced quoting or a dangling escape.
#[verifier::external_body]
fn shell_split_words(s: &str) -> (r: Option<Vec<String>>)
    ensures
        r is Some <==> shell_split(s@) is Some,
        r matches Some(v) ==> Some(v.deep_view()) == shell_split(s@),
{
    shell_words::split(s).ok()
}

/// One parsed user command.
pub enum Command {
    /// Announce departure and stop the loop.
    Quit,
    /// Print the local identity.
    Me,
    /// Print the membership snapshot.
    Members,
    /// Run a local subprocess with these arguments.
    Run { args: Vec<String> },
    /// Read and broadcast a file inline.
    SendFile { filepath: String },
    /// Hash a file into the blob store and advertise it.
    ShareFile { filepath: String },
    /// Pull a blob by ticket and export it to a path.
    ReceiveFile { ticket: String, filepath: String },
    /// A colon-prefixed word that names no command.
    Unknown { command: String },
    /// A known command given the wrong number of arguments.
    BadUsage { command: String },
    /// Plain text: broadcast as chat.
    Chat { text: String },
}

/// Whether the shell split succeeds with more than one word.
pub open spec fn run_words(t: Seq<char>) -> bool {
    &&& shell_split(t) matches Some(w)
    &&& w.len() > 1
}

/// Whether the shell split succeeds with exactly `n` words.
pub open spec fn words_len_is(t: Seq<char>, n: int) -> bool {
    &&& shell_split(t) matches Some(w)
    &&& w.len() == n
}

/// The words of a successful shell split.
pub open spec fn the_words(t: Seq<char>) -> Seq<Seq<char>> {
    choose|w: Seq<Seq<char>>| shell_split(t) == Some(w)
}

/// The name a command variant answers to, over the first token of the line.
pub open spec fn parse_command_post(t: Seq<char>, r: Command) -> bool {
    let tok = first_token(t);
    &&& (r is Quit <==> tok == "::quit"@)
    &&& (r is Me <==> tok == "::me"@)
    &&& (r is Members <==> tok == "::members"@)
    &&& (r matches Command::Run { args } ==> {
        &&& tok == "::run"@
        &&& run_words(t)
        &&& args.deep_view() == the_words(t).skip(1)
    })
    &&& (tok == "::run"@ && run_words(t) ==> r is Run)
    &&& (r matches Command::SendFile { filepath } ==> {
        &&& tok == "::send_file"@
        &&& words_len_is(t, 2)
        &&& filepath@ == the_words(t)[1]
    })
    &&& (tok == "::send_file"@ && words_len_is(t, 2) ==> r is SendFile)
    &&& (r matches Command::ShareFile { filepath } ==> {
        &&& tok == "::share_file"@
        &&& words_len_is(t, 2)
        &&& filepath@ == the_words(t)[1]
    })
    &&& (tok == "::share_file"@ && words_len_is(t, 2) ==> r is ShareFile)
    &&& (r matches Command::ReceiveFile { ticket, filepath } ==> {
        &&& tok == "::receive_file"@
        &&& words_len_is(t, 3)
        &&& ticket@ == the_words(t)[1]
        &&& filepath@ == the_words(t)[2]
    })
    &&& (tok == "::receive_file"@ && words_len_is(t, 3) ==> r is ReceiveFile)
    &&& (r matches Command::Unknown { command } ==> command@ == tok && t.len() > 0 && t[0] == ':'
        && tok != "::quit"@ && tok != "::me"@ && tok != "::members"@ && tok != "::run"@ && tok
        != "::send_file"@ && tok != "::share_file"@ && tok != "::receive_file"@)
    &&& (r matches Command::Chat { text } ==> text@ == t && (t.len() == 0 || t[0] != ':'))
    &&& (t.len() == 0 || t[0] != ':' ==> r is Chat)
    &&& (r is BadUsage ==> (tok == "::run"@ || tok == "::send_file"@ || tok == "::share_file"@
        || tok == "::receive_file"@))
}

/// Decides what one completed line asks for. Commands start with `::`; a
/// known command with the wrong argument shape is reported as such; any
/// other colon-prefixed word is unknown; everything else is chat.
pub fn parse_command(text: &String) -> (r: Command)
    ensures
        parse_command_post(text@, r),
{
    let (command, _) = split_first_space(text.as_str(), false);
    proof {
        let t = text@;
        assert(first_token(t).len() > 0 ==> t.len() > 0 && first_token(t)[0] == t[0]) by {
            if t.len() > 0 && t[0] != ' ' {
                assert(first_token(t) == seq![t[0]] + first_token(t.drop_first()));
            }
        }
        reveal_strlit("::quit");
        reveal_strlit("::me");
        reveal_strlit("::members");
        reveal_strlit("::run");
        reveal_strlit("::send_file");
        reveal_strlit("::share_file");
        reveal_strlit("::receive_file");
        reveal_strlit(":");
    }
    if same_string(&command, "::quit") {
        Command::Quit
    } else if same_string(&command, "::me") {
        Command::Me
    } else if same_string(&command, "::members") {
        Command::Members
    } else if same_string(&command, "::run") {
        match shell_split_words(text.as_str()) {
            Some(words) => {
                proof {
                    assert(the_words(text@) == words.deep_view());
                }
                if words.len() > 1 {
                    let mut args: Vec<String> = Vec::new();
                    let mut i: usize = 1;
                    while i < words.len()
                        invariant
                            1 <= i <= words@.len(),
                            args@.len() == i - 1,
                            forall|j: int| 0 <= j < i - 1 ==> #[trigger] args@[j]@ == words@[1
                                + j]@,
                        decreases words@.len() - i,
                    {
                        args.push(words[i].clone());
                        i = i + 1;
                    }
                    proof {
                        assert(args.deep_view() =~~= words.deep_view().skip(1));
                    }
                    Command::Run { args }
                } else {
                    Command::BadUsage { command }
                }
            },
            None => Command::BadUsage { command },
        }
    } else if same_string(&command, "::send_file") {
        match shell_split_words(text.as_str()) {
            Some(words) => {
                proof {
                    assert(the_words(text@) == words.deep_view());
                }
                if words.len() == 2 {
                    let filepath = words[1].clone();
                    proof {
                        assert(filepath@ == words.deep_view()[1]);
                    }
                    Command::SendFile { filepath }
                } else {
                    Command::BadUsage { command }
                }
            },
            None => Command::BadUsage { command },
        }
    } else if same_string(&command, "::share_file") {
        match shell_split_words(text.as_str()) {
            Some(words) => {
                proof {
                    assert(the_words(text@) == words.deep_view());
                }
                if words.len() == 2 {
                    let filepath = words[1].clone();
                    proof {
                        assert(filepath@ == words.deep_view()[1]);
                    }
                    Command::ShareFile { filepath }
                } else {
                    Command::BadUsage { command }
                }
            },
            None => Command::BadUsage { command },
        }
    } else if same_string(&command, "::receive_file") {
        match shell_split_words(text.as_str()) {
            Some(words) => {
                proof {
                    assert(the_words(text@) == words.deep_view());
                }
                if words.len() == 3 {
                    let ticket = words[1].clone();
                    let filepath = words[2].clone();
                    proof {
                        assert(ticket@ == words.deep_view()[1]);
                        assert(filepath@ == words.deep_view()[2]);
                    }
                    Command::ReceiveFile { ticket, filepath }
                } else {
                    Command::BadUsage { command }
                }
            },
            None => Command::BadUsage { command },
        }
    } else {
        let starts_colon = if text.as_str().unicode_len() > 0 {
            text.as_str().get_char(0) == ':'
        } else {
            false
        };
        if starts_colon {
            Command::Unknown { command }
        } else {
            proof {
                if text@.len() > 0 && text@[0] != ' ' {
                    assert(first_token(text@) == seq![text@[0]] + first_token(
                        text@.drop_first(),
                    ));
                    assert(first_token(text@)[0] == text@[0]);
                }
            }
            Command::Chat { text: text.clone() }
        }
    }
}

/// The suffix of a path after its last separator.
pub open spec fn suffix_no_slash(s: Seq<char>) -> Seq<char>
    decreases s.len(),
{
    if s.len() == 0 || s.last() == '/' {
        Seq::empty()
    } else {
        suffix_no_slash(s.drop_last()).push(s.last())
    }
}

/// A suffix free of separators and preceded by one (or the start) is the
/// basename.
proof fn lemma_suffix_no_slash(s: Seq<char>, k: int)
    requires
        0 <= k <= s.len(),
        forall|j: int| k <= j < s.len() ==> s[j] != '/',
        k > 0 ==> s[k - 1] == '/',
    ensures
        suffix_no_slash(s) == s.subrange(k, s.len() as int),
    decreases s.len(),
{
    if s.len() == 0 {
        assert(s.subrange(0, 0) =~= s);
    } else if s.last() == '/' {
        assert(k == s.len());
        assert(s.subrange(k, s.len() as int) =~= Seq::<char>::empty());
    } else {
        if k == s.len() {
            assert(s[k - 1] == '/' && s[k - 1] == s.last());
            assert(false);
        }
        lemma_suffix_no_slash(s.drop_last(), k);
        assert(s.drop_last().subrange(k, s.len() - 1) =~= s.subrange(k, s.len() - 1));
        assert(s.subrange(k, s.len() - 1).push(s.last()) =~= s.subrange(k, s.len() as int));
    }
}

/// The position just after the last separator of a path.
fn basename_start(path: &str) -> (k: usize)
    ensures
        k <= path@.len(),
        forall|j: int| k <= j < path@.len() ==> path@[j] != '/',
        k > 0 ==> path@[k - 1] == '/',
{
    let n = path.unicode_len();
    let mut k = n;
    while k > 0
        invariant
            k <= n == path@.len(),
            forall|j: int| k <= j < n ==> path@[j] != '/',
        decreases k,
    {
        let c = path.get_char(k - 1);
        if c == '/' {
            return k;
        }
        k = k - 1;
    }
    k
}

/// The basename a path offers for the wire: the text after the last `/`,
/// refused when empty or a dot component.
pub open spec fn basename_spec(s: Seq<char>) -> Option<Seq<char>> {
    let b = suffix_no_slash(s);
    if b.len() == 0 || b == "."@ || b == ".."@ {
        None
    } else {
        Some(b)
    }
}

/// Extracts the basename of a path, or nothing when the path ends in a
/// separator or a dot component.
pub fn basename(path: &str) -> (r: Option<String>)
    ensures
        r is Some <==> basename_spec(path@) is Some,
        r matches Some(b) ==> basename_spec(path@) == Some(b@),
{
    let n = path.unicode_len();
    let k = basename_start(path);
    proof {
        lemma_suffix_no_slash(path@, k as int);
        reveal_strlit(".");
        reveal_strlit("..");
    }
    let b = String::from_str(path.substring_char(k, n));
    if b.as_str().unicode_len() == 0 || same_string(&b, ".") || same_string(&b, "..") {
        None
    } else {
        Some(b)
    }
}

/// Builds the inline-file event, holding the send-side size cap: a file
/// larger than the cap is refused and nothing is broadcast.
pub fn make_send_file_msg(filename: String, content: Vec<u8>) -> (r: Option<Msg>)
    ensures
        r is Some <==> content@.len() <= MAX_FILESIZE,
        r matches Some(m) ==> m@ == (crate::structs::MsgV::SendFile {
            filename: filename@,
            content: content@,
        }),
{
    if content.len() as u64 <= MAX_FILESIZE {
        Some(Msg::SendFile { filename, content })
    } else {
        None
    }
}

/// Why an incoming inline file cannot be written.
#[derive(Debug)]
pub enum InlineError {
    /// The content exceeds the receive-side cap.
    Oversize,
    /// The carried filename has no usable basename.
    BadName,
}

/// Validates an incoming inline file: holds the receive-side size cap even
/// against a correctly signed frame, then reduces the carried name to a
/// safe basename. The caller writes `content` under the returned name in
/// its downloads directory.
pub fn inline_save_name(filename: &str, content: &Vec<u8>) -> (r: Result<String, InlineError>)
    ensures
        r matches Err(e) ==> {
            &&& (e is Oversize <==> content@.len() > MAX_FILESIZE)
            &&& (e is BadName ==> content@.len() <= MAX_FILESIZE && basename_spec(filename@)
                is None)
        },
        r is Ok <==> content@.len() <= MAX_FILESIZE && basename_spec(filename@) is Some,
        r matches Ok(b) ==> basename_spec(filename@) == Some(b@),
{
    if content.len() as u64 > MAX_FILESIZE {
        return Err(InlineError::Oversize);
    }
    match basename(filename) {
        Some(b) => Ok(b),
        None => Err(InlineError::BadName),
    }
}

} // verus!
