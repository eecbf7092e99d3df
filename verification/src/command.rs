//! The client's command language: trimming an input line, telling which
//! command it names, and the session settings that commands change.
use vstd::prelude::*;
use vstd::string::*;
use crate::text::{chars_of, push_char};

verus! {

/// Unicode `White_Space`, the property that `char::is_whitespace` and
/// `str::trim` go by.
pub open spec fn is_white_space(c: char) -> bool {
    ('\u{9}' <= c && c <= '\u{d}') || c == ' ' || c == '\u{85}' || c == '\u{a0}' || c
        == '\u{1680}' || ('\u{2000}' <= c && c <= '\u{200a}') || c == '\u{2028}' || c
        == '\u{2029}' || c == '\u{202f}' || c == '\u{205f}' || c == '\u{3000}'
}

/// The number of white-space characters that `s` starts with.
pub open spec fn leading_white(s: Seq<char>) -> nat
    decreases s.len(),
{
    if s.len() == 0 {
        0
    } else if is_white_space(s[0]) {
        1 + leading_white(s.drop_first())
    } else {
        0
    }
}

/// The number of white-space characters that `s` ends with.
pub open spec fn trailing_white(s: Seq<char>) -> nat
    decreases s.len(),
{
    if s.len() == 0 {
        0
    } else if is_white_space(s.last()) {
        1 + trailing_white(s.drop_last())
    } else {
        0
    }
}

/// `s` without its leading and trailing white space, as `str::trim` gives.
pub open spec fn trimmed(s: Seq<char>) -> Seq<char> {
    if leading_white(s) == s.len() {
        Seq::empty()
    } else {
        s.subrange(leading_white(s) as int, s.len() - trailing_white(s))
    }
}

/// `leading_white` is the first position that holds no white space.
proof fn lemma_leading_white(s: Seq<char>, i: int)
    requires
        0 <= i <= s.len(),
        forall|k: int| 0 <= k < i ==> is_white_space(#[trigger] s[k]),
        i == s.len() || !is_white_space(s[i]),
    ensures
        leading_white(s) == i,
    decreases i,
{
    if i > 0 {
        assert(is_white_space(s[0]));
        assert forall|k: int| 0 <= k < i - 1 implies is_white_space(#[trigger] s.drop_first()[k]) by {
            assert(s.drop_first()[k] == s[k + 1]);
        }
        lemma_leading_white(s.drop_first(), i - 1);
    }
}

/// `trailing_white` counts the white space after the last position `j - 1`
/// that holds none.
proof fn lemma_trailing_white(s: Seq<char>, j: int)
    requires
        0 <= j <= s.len(),
        forall|k: int| j <= k < s.len() ==> is_white_space(#[trigger] s[k]),
        j == 0 || !is_white_space(s[j - 1]),
    ensures
        trailing_white(s) == s.len() - j,
    decreases s.len() - j,
{
    if j < s.len() {
        assert(is_white_space(s.last()));
        assert forall|k: int| j <= k < s.len() - 1 implies is_white_space(
            #[trigger] s.drop_last()[k],
        ) by {
            assert(s.drop_last()[k] == s[k]);
        }
        lemma_trailing_white(s.drop_last(), j);
    }
}

/// Whether `c` is white space.
pub fn white_space(c: char) -> (r: bool)
    ensures
        r == is_white_space(c),
{
    ('\u{9}' <= c && c <= '\u{d}') || c == ' ' || c == '\u{85}' || c == '\u{a0}' || c
        == '\u{1680}' || ('\u{2000}' <= c && c <= '\u{200a}') || c == '\u{2028}' || c
        == '\u{2029}' || c == '\u{202f}' || c == '\u{205f}' || c == '\u{3000}'
}

/// The characters `v[from..to]` as a string.
fn string_of(v: &Vec<char>, from: usize, to: usize) -> (s: String)
    requires
        from <= to <= v@.len(),
    ensures
        s@ == v@.subrange(from as int, to as int),
{
    let mut s = String::new();
    let mut i = from;
    while i < to
        invariant
            from <= i <= to <= v@.len(),
            s@ == v@.subrange(from as int, i as int),
        decreases to - i,
    {
        push_char(&mut s, v[i]);
        assert(v@.subrange(from as int, i + 1) =~= v@.subrange(from as int, i as int).push(
            v@[i as int],
        ));
        i = i + 1;
    }
    s
}

/// `s` without leading and trailing white space.
pub fn trim(s: &str) -> (r: String)
    ensures
        r@ == trimmed(s@),
{
    let v = chars_of(s);
    let n = v.len();
    let mut i: usize = 0;
    while i < n && white_space(v[i])
        invariant
            v@ == s@,
            n == v@.len(),
            i <= n,
            forall|k: int| 0 <= k < i ==> is_white_space(#[trigger] v@[k]),
        decreases n - i,
    {
        i = i + 1;
    }
    proof {
        lemma_leading_white(s@, i as int);
    }
    if i == n {
        return String::new();
    }
    let mut j: usize = n;
    while j > i && white_space(v[j - 1])
        invariant
            v@ == s@,
            n == v@.len(),
            i < n,
            !is_white_space(v@[i as int]),
            i <= j <= n,
            forall|k: int| j <= k < n ==> is_white_space(#[trigger] v@[k]),
        decreases j,
    {
        j = j - 1;
    }
    proof {
        lemma_trailing_white(s@, j as int);
    }
    string_of(&v, i, j)
}

/// A command of the client's prompt.
pub enum Command {
    /// Close the session (`exit`, or an empty line).
    Exit,
    /// Show the list of commands.
    Help,
    /// Show the server URL.
    ShowServer,
    /// Set the server URL.
    SetServer(String),
    /// Show the token.
    ShowToken,
    /// Set the token.
    SetToken(String),
    /// Push the local directory to the server.
    Push,
    /// Pull the server's directory.
    Pull,
    /// Anything else.
    Invalid,
}

/// A command with its argument taken as a character sequence.
pub enum CommandView {
    Exit,
    Help,
    ShowServer,
    SetServer(Seq<char>),
    ShowToken,
    SetToken(Seq<char>),
    Push,
    Pull,
    Invalid,
}

impl View for Command {
    type V = CommandView;

    open spec fn view(&self) -> CommandView {
        match self {
            Command::Exit => CommandView::Exit,
            Command::Help => CommandView::Help,
            Command::ShowServer => CommandView::ShowServer,
            Command::SetServer(s) => CommandView::SetServer(s@),
            Command::ShowToken => CommandView::ShowToken,
            Command::SetToken(s) => CommandView::SetToken(s@),
            Command::Push => CommandView::Push,
            Command::Pull => CommandView::Pull,
            Command::Invalid => CommandView::Invalid,
        }
    }
}

/// Whether `s` begins with `prefix`.
pub open spec fn has_prefix(s: Seq<char>, prefix: Seq<char>) -> bool {
    prefix.len() <= s.len() && s.take(prefix.len() as int) == prefix
}

/// The command that an input line names. The line is trimmed first; an empty
/// line closes the session like `exit`; `server <url>` and `token <key>`
/// carry their argument, trimmed.
pub open spec fn command_of(input: Seq<char>) -> CommandView {
    let clean = trimmed(input);
    if clean == "exit"@ || clean.len() == 0 {
        CommandView::Exit
    } else if clean == "help"@ {
        CommandView::Help
    } else if clean == "server"@ {
        CommandView::ShowServer
    } else if has_prefix(clean, "server "@) {
        CommandView::SetServer(trimmed(clean.skip("server "@.len() as int)))
    } else if clean == "token"@ {
        CommandView::ShowToken
    } else if has_prefix(clean, "token "@) {
        CommandView::SetToken(trimmed(clean.skip("token "@.len() as int)))
    } else if clean == "push"@ {
        CommandView::Push
    } else if clean == "pull"@ {
        CommandView::Pull
    } else {
        CommandView::Invalid
    }
}

/// Whether the characters `v` begin with those of `prefix`.
fn starts_with(v: &Vec<char>, prefix: &Vec<char>) -> (r: bool)
    ensures
        r == has_prefix(v@, prefix@),
{
    if prefix.len() > v.len() {
        return false;
    }
    let mut i: usize = 0;
    while i < prefix.len()
        invariant
            prefix@.len() <= v@.len(),
            i <= prefix@.len(),
            forall|k: int| 0 <= k < i ==> v@[k] == prefix@[k],
        decreases prefix.len() - i,
    {
        if v[i] != prefix[i] {
            assert(v@.take(prefix@.len() as int)[i as int] != prefix@[i as int]);
            return false;
        }
        i = i + 1;
    }
    assert(v@.take(prefix@.len() as int) =~= prefix@);
    true
}

/// The argument after `prefix` in `clean`, trimmed.
fn argument_after(clean: &String, prefix: &str) -> (r: String)
    requires
        has_prefix(clean@, prefix@),
    ensures
        r@ == trimmed(clean@.skip(prefix@.len() as int)),
{
    let v = chars_of(clean.as_str());
    let p = chars_of(prefix);
    let rest = string_of(&v, p.len(), v.len());
    assert(rest@ =~= clean@.skip(prefix@.len() as int));
    trim(rest.as_str())
}

/// Reads the command that an input line names.
pub fn parse_command(input: &str) -> (cmd: Command)
    ensures
        cmd@ == command_of(input@),
{
    let clean = trim(input);
    let v = chars_of(clean.as_str());
    if clean == "exit".to_owned() || v.len() == 0 {
        Command::Exit
    } else if clean == "help".to_owned() {
        Command::Help
    } else if clean == "server".to_owned() {
        Command::ShowServer
    } else if starts_with(&v, &chars_of("server ")) {
        Command::SetServer(argument_after(&clean, "server "))
    } else if clean == "token".to_owned() {
        Command::ShowToken
    } else if starts_with(&v, &chars_of("token ")) {
        Command::SetToken(argument_after(&clean, "token "))
    } else if clean == "push".to_owned() {
        Command::Push
    } else if clean == "pull".to_owned() {
        Command::Pull
    } else {
        Command::Invalid
    }
}

/// The settings of a client session: the server URL and the token.
pub struct Session {
    server: String,
    token: String,
}

impl Session {
    /// The server URL that commands use.
    pub closed spec fn server_spec(&self) -> Seq<char> {
        self.server@
    }

    /// The token that commands use.
    pub closed spec fn token_spec(&self) -> Seq<char> {
        self.token@
    }

    /// A session with the server `http://localhost` and the token `not-set`.
    pub fn new() -> (s: Session)
        ensures
            s.server_spec() == "http://localhost"@,
            s.token_spec() == "not-set"@,
    {
        Session { server: "http://localhost".to_owned(), token: "not-set".to_owned() }
    }

    /// The server URL.
    pub fn server(&self) -> (r: &str)
        ensures
            r@ == self.server_spec(),
    {
        self.server.as_str()
    }

    /// The token.
    pub fn token(&self) -> (r: &str)
        ensures
            r@ == self.token_spec(),
    {
        self.token.as_str()
    }

    /// Reads an input line, applies the setting it makes, if any, and
    /// returns the command for the caller to carry out.
    pub fn handle_line(&mut self, input: &str) -> (cmd: Command)
        ensures
            cmd@ == command_of(input@),
            final(self).server_spec() == (match command_of(input@) {
                CommandView::SetServer(url) => url,
                _ => old(self).server_spec(),
            }),
            final(self).token_spec() == (match command_of(input@) {
                CommandView::SetToken(key) => key,
                _ => old(self).token_spec(),
            }),
    {
        let cmd = parse_command(input);
        match &cmd {
            Command::SetServer(url) => {
                self.server = url.clone();
            },
            Command::SetToken(key) => {
                self.token = key.clone();
            },
            _ => {},
        }
        cmd
    }
}

/// A sequence that neither starts nor ends with white space is its own
/// trimmed form.
proof fn lemma_trimmed_unchanged(s: Seq<char>)
    requires
        s.len() > 0,
        !is_white_space(s[0]),
        !is_white_space(s.last()),
    ensures
        trimmed(s) == s,
{
    assert(leading_white(s) == 0);
    assert(trailing_white(s) == 0);
    assert(s.subrange(0, s.len() as int) =~= s);
}

/// `<word> <value>` names the setting of `value` when `value` has no white
/// space at either end: the prompt's `server <url>` and `token <key>`.
proof fn lemma_setting_argument(word: Seq<char>, value: Seq<char>)
    requires
        word.len() > 0,
        !is_white_space(word[0]),
        value.len() > 0,
        !is_white_space(value[0]),
        !is_white_space(value.last()),
    ensures
        trimmed(word + seq![' '] + value) == word + seq![' '] + value,
        has_prefix(word + seq![' '] + value, word + seq![' ']),
        (word + seq![' '] + value).skip(word.len() + 1int) == value,
{
    let line = word + seq![' '] + value;
    assert(line[0] == word[0]);
    assert(line.last() == value.last());
    lemma_trimmed_unchanged(line);
    assert(line.take(word.len() + 1int) =~= word + seq![' ']);
    assert(line.skip(word.len() + 1int) =~= value);
}

/// `server <url>` sets the server URL to `<url>`, for a URL without white
/// space at either end, and the session then reads back that URL.
pub proof fn law_server_setting(url: Seq<char>)
    requires
        url.len() > 0,
        !is_white_space(url[0]),
        !is_white_space(url.last()),
    ensures
        command_of("server "@ + url) == CommandView::SetServer(url),
{
    reveal_strlit("server ");
    reveal_strlit("server");
    reveal_strlit("exit");
    reveal_strlit("help");
    let word = seq!['s', 'e', 'r', 'v', 'e', 'r'];
    assert("server "@ =~= word + seq![' ']);
    lemma_setting_argument(word, url);
    assert("server "@ + url =~= word + seq![' '] + url);
    lemma_trimmed_unchanged(url);
    let clean = trimmed("server "@ + url);
    assert(clean.len() != "exit"@.len() || clean != "exit"@);
    assert(clean.len() > "server"@.len());
}

/// `token <key>` sets the token to `<key>`, for a key without white space at
/// either end, and the session then reads back that key.
pub proof fn law_token_setting(key: Seq<char>)
    requires
        key.len() > 0,
        !is_white_space(key[0]),
        !is_white_space(key.last()),
    ensures
        command_of("token "@ + key) == CommandView::SetToken(key),
{
    reveal_strlit("token ");
    reveal_strlit("token");
    reveal_strlit("server ");
    reveal_strlit("server");
    reveal_strlit("exit");
    reveal_strlit("help");
    let word = seq!['t', 'o', 'k', 'e', 'n'];
    assert("token "@ =~= word + seq![' ']);
    lemma_setting_argument(word, key);
    assert("token "@ + key =~= word + seq![' '] + key);
    lemma_trimmed_unchanged(key);
    let clean = trimmed("token "@ + key);
    assert(clean[0] == 't');
    assert(clean != "exit"@);
    assert(clean != "help"@);
    assert(clean != "server"@);
    assert(!has_prefix(clean, "server "@));
    assert(clean.len() > "token"@.len());
}

} // verus!
