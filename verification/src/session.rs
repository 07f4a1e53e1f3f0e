//! What the terminal session shows: clock times, message lines, short peer
//! ids, and the warning for a command a shell has rewritten into a path.

use vstd::prelude::*;

use crate::node::{Message, NodeEvent, Reachability};
use crate::store::CommunitySummary;
use crate::text::{has_prefix, lowercase_of, lowercase_text};
use crate::text::{append_str, is_space, padded_decimal, push_char, push_two_digits};

verus! {

broadcast use vstd::string::to_string_from_display_ensures_for_str;

/// The commands the session understands, as typed after a `/`.
pub open spec fn commands() -> Seq<Seq<char>> {
    seq![
        "help"@,
        "quit"@,
        "exit"@,
        "status"@,
        "id"@,
        "peers"@,
        "create"@,
        "join"@,
        "invite"@,
        "communities"@,
        "use"@,
        "channels"@,
        "channel"@,
        "c"@,
        "newchannel"@,
        "members"@,
        "history"@,
        "name"@,
        "dial"@,
        "sync"@,
    ]
}

/// Equality of text, character by character.
pub fn same_text(a: &str, b: &str) -> (r: bool)
    ensures
        r == (a@ == b@),
{
    let n = a.unicode_len();
    if n != b.unicode_len() {
        return false;
    }
    let mut i: usize = 0;
    while i < n
        invariant
            n == a@.len(),
            n == b@.len(),
            i <= n,
            forall|k: int| 0 <= k < i ==> a@[k] == b@[k],
        decreases n - i,
    {
        if a.get_char(i) != b.get_char(i) {
            return false;
        }
        i += 1;
    }
    assert(a@ =~= b@);
    true
}

/// Whether `word` is one of the session's commands.
pub fn is_command(word: &str) -> (b: bool)
    ensures
        b == commands().contains(word@),
{
    let names: [&str; 20] = [
        "help",
        "quit",
        "exit",
        "status",
        "id",
        "peers",
        "create",
        "join",
        "invite",
        "communities",
        "use",
        "channels",
        "channel",
        "c",
        "newchannel",
        "members",
        "history",
        "name",
        "dial",
        "sync",
    ];
    assert(forall|k: int| 0 <= k < 20 ==> (#[trigger] names@[k])@ == commands()[k]);
    let mut i: usize = 0;
    while i < 20
        invariant
            i <= 20,
            forall|k: int| 0 <= k < 20 ==> (#[trigger] names@[k])@ == commands()[k],
            forall|k: int| 0 <= k < i ==> commands()[k] != word@,
        decreases 20 - i,
    {
        if same_text(names[i], word) {
            assert(commands()[i as int] == word@);
            return true;
        }
        i += 1;
    }
    assert forall|k: int| 0 <= k < commands().len() implies commands()[k] != word@ by {}
    false
}

/// The position of the last `c` in `s`, if any.
pub open spec fn last_index_of(s: Seq<char>, c: char) -> Option<int> {
    if exists|i: int| 0 <= i < s.len() && s[i] == c {
        Some(choose|i: int| 0 <= i < s.len() && s[i] == c && forall|j: int| i < j < s.len() ==> s[j] != c)
    } else {
        None
    }
}

/// `needle` occurs somewhere in `s`.
pub open spec fn contains_text(s: Seq<char>, needle: Seq<char>) -> bool {
    exists|i: int| 0 <= i <= s.len() - needle.len() && #[trigger] s.subrange(i, i + needle.len()) == needle
}

/// The first whitespace-separated word of `s`, as `split_whitespace` finds
/// it.
pub open spec fn first_word(s: Seq<char>) -> Option<Seq<char>> {
    let t = crate::text::trim_front(s);
    if t.len() == 0 {
        None
    } else {
        let end = if exists|i: int| 0 <= i < t.len() && is_space(t[i]) {
            choose|i: int| 0 <= i < t.len() && is_space(t[i]) && forall|j: int| 0 <= j < i ==> !is_space(t[j])
        } else {
            t.len() as int
        };
        Some(t.subrange(0, end))
    }
}

/// What `mangled_command_hint` says about a line.
pub open spec fn hint_for(line: Seq<char>) -> Option<Seq<char>> {
    match last_index_of(line, '/') {
        None => None,
        Some(i) => {
            let prefix = line.subrange(0, i);
            let tail = line.skip(i + 1);
            if !contains_text(prefix, ":/"@) && !contains_text(prefix, ":\\"@) {
                None
            } else {
                match first_word(tail) {
                    None => None,
                    Some(command) => if commands().contains(command) {
                        Some(hint_text(command))
                    } else {
                        None
                    },
                }
            }
        },
    }
}

pub open spec fn hint_text(command: Seq<char>) -> Seq<char> {
    "that looks like `/"@ + command
        + "` after your shell rewrote it as a path;          run the command with MSYS_NO_PATHCONV=1 set, or type it at the prompt"@
}

/// Whether `needle` occurs in `s`.
pub fn text_contains(s: &str, needle: &str) -> (b: bool)
    ensures
        b == contains_text(s@, needle@),
{
    let n = s.unicode_len();
    let m = needle.unicode_len();
    if m > n {
        return false;
    }
    if m == 0 {
        assert(s@.subrange(0int, 0int + needle@.len()) =~= needle@);
        return true;
    }
    let mut i: usize = 0;
    while i <= n - m
        invariant
            n == s@.len(),
            m == needle@.len(),
            1 <= m <= n,
            i <= n - m + 1,
            forall|k: int| 0 <= k < i ==> #[trigger] s@.subrange(k, k + m) != needle@,
        decreases n - m + 1 - i,
    {
        let piece = s.substring_char(i, i + m);
        if same_text(piece, needle) {
            return true;
        }
        i += 1;
    }
    false
}

/// The first whitespace-separated word of `s`.
fn first_word_of(s: &str) -> (r: Option<&str>)
    ensures
        match r {
            None => first_word(s@) is None,
            Some(w) => first_word(s@) == Some(w@),
        },
{
    let n = s.unicode_len();
    let mut start: usize = 0;
    assert(s@.skip(0) =~= s@);
    while start < n
        invariant
            n == s@.len(),
            start <= n,
            crate::text::trim_front(s@) == crate::text::trim_front(s@.skip(start as int)),
        ensures
            start <= n,
            crate::text::trim_front(s@) == crate::text::trim_front(s@.skip(start as int)),
            start < n ==> !is_space(s@[start as int]),
        decreases n - start,
    {
        if !is_space_char(s.get_char(start)) {
            break;
        }
        assert(s@.skip(start as int).drop_first() =~= s@.skip(start + 1));
        start += 1;
    }
    if start < n {
        assert(s@.skip(start as int)[0] == s@[start as int]);
    }
    assert(s@.skip(start as int).len() > 0 ==> crate::text::trim_front(s@.skip(start as int)) == s@.skip(start as int));
    if start == n {
        assert(s@.skip(start as int) =~= Seq::<char>::empty());
        return None;
    }
    let ghost t = s@.skip(start as int);
    let mut end: usize = start;
    while end < n
        invariant
            n == s@.len(),
            start <= end <= n,
            t == s@.skip(start as int),
            forall|j: int| 0 <= j < end - start ==> !is_space(#[trigger] t[j]),
        ensures
            start <= end <= n,
            forall|j: int| 0 <= j < end - start ==> !is_space(#[trigger] t[j]),
            end < n ==> is_space(t[end - start]),
        decreases n - end,
    {
        if is_space_char(s.get_char(end)) {
            break;
        }
        end += 1;
    }
    let w = s.substring_char(start, end);
    proof {
        let e = (end - start) as int;
        if e < t.len() {
            assert(is_space(t[e]));
        }
        assert(w@ =~= t.subrange(0, e));
    }
    Some(w)
}

/// `char::is_whitespace`.
fn is_space_char(c: char) -> (b: bool)
    ensures
        b == is_space(c),
{
    let u = c as u32;
    (0x9 <= u && u <= 0xD) || u == 0x20 || u == 0x85 || u == 0xA0 || u == 0x1680 || (0x2000 <= u && u <= 0x200A)
        || u == 0x2028 || u == 0x2029 || u == 0x202F || u == 0x205F || u == 0x3000
}

/// Spots a command that a Unix-shell emulator has rewritten into a path.
///
/// Git Bash and MSYS translate arguments that look like absolute Unix paths,
/// so `--exec "/create Kahui"` reaches the program as
/// `C:/Program Files/Git/create Kahui`. Posting that as a chat message would
/// be a baffling way to fail, so say what happened instead.
pub fn mangled_command_hint(line: &str) -> (r: Option<String>)
    ensures
        match r {
            None => hint_for(line@) is None,
            Some(h) => hint_for(line@) == Some(h@),
        },
{
    let n = line.unicode_len();
    let mut k: usize = n;
    while k > 0
        invariant
            n == line@.len(),
            k <= n,
            forall|j: int| k <= j < n ==> line@[j] != '/',
        ensures
            k <= n,
            forall|j: int| k <= j < n ==> line@[j] != '/',
            k > 0 ==> line@[k - 1] == '/',
        decreases k,
    {
        if line.get_char(k - 1) == '/' {
            break;
        }
        k -= 1;
    }
    if k == 0 {
        return None;
    }
    let i = k - 1;
    proof {
        assert(line@[i as int] == '/');
        let c = choose|x: int| 0 <= x < line@.len() && line@[x] == '/' && forall|j: int| x < j < line@.len() ==> line@[j] != '/';
        if c < i {
            assert(line@[i as int] != '/');
        }
        assert(last_index_of(line@, '/') == Some(i as int));
    }
    let prefix = line.substring_char(0, i);
    let tail = line.substring_char(i + 1, n);
    assert(tail@ =~= line@.skip(i + 1));
    if !text_contains(prefix, ":/") && !text_contains(prefix, ":\\") {
        return None;
    }
    let command = match first_word_of(tail) {
        Some(w) => w,
        None => return None,
    };
    if !is_command(command) {
        return None;
    }
    let mut s = "that looks like `/".to_string();
    append_str(&mut s, command);
    append_str(
        &mut s,
        "` after your shell rewrote it as a path;          run the command with MSYS_NO_PATHCONV=1 set, or type it at the prompt",
    );
    Some(s)
}

/// A timestamp as UTC wall-clock time of day, `HH:MM:SS`.
pub open spec fn clock_of(timestamp_ms: u64) -> Seq<char> {
    let seconds = timestamp_ms / 1000;
    padded_decimal(((seconds / 3600) % 24) as nat, 2) + ":"@ + padded_decimal(((seconds / 60) % 60) as nat, 2) + ":"@
        + padded_decimal((seconds % 60) as nat, 2)
}

/// Renders a timestamp as UTC wall clock.
///
/// The author's own clock, shown as they reported it. It is never used to
/// order anything, so a peer with a wrong clock produces a confusing
/// timestamp and nothing worse.
pub fn clock(timestamp_ms: u64) -> (s: String)
    ensures
        s@ == clock_of(timestamp_ms),
{
    let seconds = timestamp_ms / 1000;
    let mut s = String::new();
    push_two_digits(&mut s, (seconds / 3600) % 24);
    push_char(&mut s, ':');
    push_two_digits(&mut s, (seconds / 60) % 60);
    push_char(&mut s, ':');
    push_two_digits(&mut s, seconds % 60);
    proof {
        reveal_strlit(":");
    }
    s
}

/// `[12:34:56] alice: hello`
pub open spec fn message_line(m: &Message) -> Seq<char> {
    "["@ + clock_of(m.timestamp_ms) + "] "@ + m.author_name@ + ": "@ + m.body@
}

pub fn format_message(message: &Message) -> (s: String)
    ensures
        s@ == message_line(message),
{
    let mut s = "[".to_string();
    let c = clock(message.timestamp_ms);
    append_str(&mut s, c.as_str());
    append_str(&mut s, "] ");
    append_str(&mut s, message.author_name.as_str());
    append_str(&mut s, ": ");
    append_str(&mut s, message.body.as_str());
    s
}

/// Peer ids are long and only the tail is worth reading at a glance: an
/// ellipsis and the last eight characters, or the whole id if it is no
/// longer than that.
pub open spec fn short_peer_of(peer: Seq<char>) -> Seq<char> {
    if peer.len() >= 8 {
        seq!['…'] + peer.skip(peer.len() - 8)
    } else {
        peer
    }
}

pub fn short_peer(peer: &str) -> (s: String)
    ensures
        s@ == short_peer_of(peer@),
{
    let n = peer.unicode_len();
    if n >= 8 {
        let mut s = String::new();
        push_char(&mut s, '…');
        append_str(&mut s, peer.substring_char(n - 8, n));
        assert(s@ =~= seq!['…'] + peer@.skip(n - 8));
        s
    } else {
        peer.to_string()
    }
}

/// The command word of a line and what follows it: the line split at its
/// first whitespace character, the rest trimmed.
pub open spec fn command_parts(line: Seq<char>) -> (Seq<char>, Seq<char>) {
    if exists|i: int| 0 <= i < line.len() && is_space(#[trigger] line[i]) {
        let i = choose|i: int|
            0 <= i < line.len() && is_space(#[trigger] line[i]) && forall|j: int| 0 <= j < i ==> !is_space(#[trigger] line[j]);
        (line.take(i), crate::text::trimmed(line.skip(i + 1)))
    } else {
        (line, seq![])
    }
}

/// What a line typed at the prompt asks for.
#[derive(Debug, PartialEq, Eq)]
pub enum Input {
    /// A command a shell rewrote into a path: say so instead of posting it.
    Hint(String),
    /// Anything that is not a command is a message to the current channel.
    Post(String),
    Help,
    Quit,
    Status,
    Id,
    Peers,
    Create(String),
    Join(String),
    Invite,
    Communities,
    Use(String),
    Channels,
    Channel(String),
    NewChannel(String),
    Members,
    History(String),
    Name(String),
    Dial(String),
    Sync,
    /// Not a command this session knows.
    Unknown(String),
}

/// What a line asks for, by its command word and the rest of it.
pub open spec fn input_is(r: &Input, line: Seq<char>) -> bool {
    let (cmd, rest) = command_parts(line);
    if hint_for(line) is Some {
        r matches Input::Hint(h) && Some(h@) == hint_for(line)
    } else if !(line.len() > 0 && line[0] == '/') {
        r matches Input::Post(b) && b@ == line
    } else if cmd == "/help"@ || cmd == "/?"@ {
        r is Help
    } else if cmd == "/quit"@ || cmd == "/exit"@ {
        r is Quit
    } else if cmd == "/status"@ {
        r is Status
    } else if cmd == "/id"@ {
        r is Id
    } else if cmd == "/peers"@ {
        r is Peers
    } else if cmd == "/create"@ {
        r matches Input::Create(x) && x@ == rest
    } else if cmd == "/join"@ {
        r matches Input::Join(x) && x@ == rest
    } else if cmd == "/invite"@ {
        r is Invite
    } else if cmd == "/communities"@ {
        r is Communities
    } else if cmd == "/use"@ {
        r matches Input::Use(x) && x@ == rest
    } else if cmd == "/channels"@ {
        r is Channels
    } else if cmd == "/channel"@ || cmd == "/c"@ {
        r matches Input::Channel(x) && x@ == rest
    } else if cmd == "/newchannel"@ {
        r matches Input::NewChannel(x) && x@ == rest
    } else if cmd == "/members"@ {
        r is Members
    } else if cmd == "/history"@ {
        r matches Input::History(x) && x@ == rest
    } else if cmd == "/name"@ {
        r matches Input::Name(x) && x@ == rest
    } else if cmd == "/dial"@ {
        r matches Input::Dial(x) && x@ == rest
    } else if cmd == "/sync"@ {
        r is Sync
    } else {
        r matches Input::Unknown(x) && x@ == cmd
    }
}

/// Splits a line at its first whitespace character.
fn split_command(line: &str) -> (r: (String, String))
    ensures
        r.0@ == command_parts(line@).0,
        r.1@ == command_parts(line@).1,
{
    let n = line.unicode_len();
    let mut i: usize = 0;
    while i < n
        invariant
            n == line@.len(),
            i <= n,
            forall|j: int| 0 <= j < i ==> !is_space(#[trigger] line@[j]),
        decreases n - i,
    {
        if is_space_char(line.get_char(i)) {
            let head = line.substring_char(0, i);
            let tail = line.substring_char(i + 1, n);
            let rest = crate::text::trim_text(tail);
            proof {
                let k = choose|k: int|
                    0 <= k < line@.len() && is_space(#[trigger] line@[k]) && forall|j: int| 0 <= j < k ==> !is_space(#[trigger] line@[j]);
                if k < i {
                    assert(!is_space(line@[k]));
                } else if i < k {
                    assert(!is_space(line@[i as int]));
                }
                assert(head@ =~= line@.take(i as int));
                assert(tail@ =~= line@.skip(i + 1));
            }
            return (head.to_owned(), rest.to_owned());
        }
        i += 1;
    }
    (line.to_owned(), String::new())
}

/// What a line typed at the prompt asks for.
pub fn parse_input(line: &str) -> (r: Input)
    ensures
        input_is(&r, line@),
{
    match mangled_command_hint(line) {
        Some(h) => return Input::Hint(h),
        None => {},
    }
    if !(line.unicode_len() > 0 && line.get_char(0) == '/') {
        return Input::Post(line.to_owned());
    }
    let (cmd, rest) = split_command(line);
    let c = cmd.as_str();
    if same_text(c, "/help") || same_text(c, "/?") {
        Input::Help
    } else if same_text(c, "/quit") || same_text(c, "/exit") {
        Input::Quit
    } else if same_text(c, "/status") {
        Input::Status
    } else if same_text(c, "/id") {
        Input::Id
    } else if same_text(c, "/peers") {
        Input::Peers
    } else if same_text(c, "/create") {
        Input::Create(rest)
    } else if same_text(c, "/join") {
        Input::Join(rest)
    } else if same_text(c, "/invite") {
        Input::Invite
    } else if same_text(c, "/communities") {
        Input::Communities
    } else if same_text(c, "/use") {
        Input::Use(rest)
    } else if same_text(c, "/channels") {
        Input::Channels
    } else if same_text(c, "/channel") || same_text(c, "/c") {
        Input::Channel(rest)
    } else if same_text(c, "/newchannel") {
        Input::NewChannel(rest)
    } else if same_text(c, "/members") {
        Input::Members
    } else if same_text(c, "/history") {
        Input::History(rest)
    } else if same_text(c, "/name") {
        Input::Name(rest)
    } else if same_text(c, "/dial") {
        Input::Dial(rest)
    } else if same_text(c, "/sync") {
        Input::Sync
    } else {
        Input::Unknown(cmd)
    }
}

/// The value of a decimal numeral: digits, after an optional `+`.
pub open spec fn numeral_value(s: Seq<char>) -> int
    decreases s.len(),
{
    if s.len() == 0 {
        0
    } else {
        numeral_value(s.drop_last()) * 10 + (s.last() as int - '0' as int)
    }
}

pub open spec fn all_digits(s: Seq<char>) -> bool {
    forall|i: int| 0 <= i < s.len() ==> '0' <= #[trigger] s[i] <= '9'
}

/// What `str::parse::<usize>` makes of some text: an optional `+`, then at
/// least one digit, and a value that fits.
pub open spec fn usize_of(s: Seq<char>) -> Option<usize> {
    let digits = if s.len() > 0 && s[0] == '+' { s.skip(1) } else { s };
    if digits.len() > 0 && all_digits(digits) && numeral_value(digits) <= usize::MAX {
        Some(numeral_value(digits) as usize)
    } else {
        None
    }
}

/// Parses a count the way `str::parse::<usize>` does.
pub fn parse_count(s: &str) -> (r: Option<usize>)
    ensures
        r == usize_of(s@),
{
    let n = s.unicode_len();
    let start: usize = if n > 0 && s.get_char(0) == '+' { 1 } else { 0 };
    let ghost digits = if s@.len() > 0 && s@[0] == '+' { s@.skip(1) } else { s@ };
    assert(digits =~= s@.skip(start as int));
    if start >= n {
        return None;
    }
    let mut value: usize = 0;
    let mut i: usize = start;
    while i < n
        invariant
            n == s@.len(),
            start <= i <= n,
            digits == s@.skip(start as int),
            digits == (if s@.len() > 0 && s@[0] == '+' { s@.skip(1) } else { s@ }),
            all_digits(digits.take(i - start)),
            value == numeral_value(digits.take(i - start)),
        decreases n - i,
    {
        let c = s.get_char(i);
        assert(digits.take(i - start + 1).drop_last() =~= digits.take(i - start));
        assert(digits[i - start] == c);
        if !('0' <= c && c <= '9') {
            assert(!('0' <= digits[i - start] <= '9'));
            assert(!all_digits(digits));
            return None;
        }
        let d = (c as u32 - '0' as u32) as usize;
        if value > (usize::MAX - d) / 10 {
            proof {
                assert(numeral_value(digits.take(i - start + 1)) == value * 10 + d);
                assert(value * 10 + d > usize::MAX) by (nonlinear_arith)
                    requires value > (usize::MAX - d) / 10, d <= 9;
                if all_digits(digits) {
                    lemma_numeral_prefix_grows(digits, i - start + 1);
                }
            }
            return None;
        }
        assert(value * 10 + d <= usize::MAX) by (nonlinear_arith)
            requires value <= (usize::MAX - d) / 10, d <= 9;
        value = value * 10 + d;
        assert(all_digits(digits.take(i - start + 1)));
        i += 1;
    }
    assert(digits.take(n - start) =~= digits);
    Some(value)
}

/// A longer all-digit numeral is worth at least as much as any prefix.
proof fn lemma_numeral_prefix_grows(s: Seq<char>, k: int)
    requires
        0 <= k <= s.len(),
        all_digits(s),
    ensures
        numeral_value(s) >= numeral_value(s.take(k)),
    decreases s.len(),
{
    if k < s.len() {
        assert(s.drop_last().take(k) =~= s.take(k));
        lemma_numeral_prefix_grows(s.drop_last(), k);
        assert(numeral_value(s.drop_last()) >= 0) by {
            lemma_numeral_nonneg(s.drop_last());
        }
    } else {
        assert(s.take(k) =~= s);
    }
}

proof fn lemma_numeral_nonneg(s: Seq<char>)
    requires
        all_digits(s),
    ensures
        numeral_value(s) >= 0,
    decreases s.len(),
{
    if s.len() > 0 {
        lemma_numeral_nonneg(s.drop_last());
    }
}

/// How many messages `/history` shows: 30 unless a number is given.
pub fn history_limit(argument: &str) -> (r: Result<usize, String>)
    ensures
        argument@.len() == 0 ==> r == Ok::<usize, String>(30),
        argument@.len() > 0 ==> match usize_of(argument@) {
            Some(n) => r == Ok::<usize, String>(n),
            None => r matches Err(e) && e@ == "usage: /history [number of messages]"@,
        },
{
    if argument.unicode_len() == 0 {
        return Ok(30);
    }
    match parse_count(argument) {
        Some(n) => Ok(n),
        None => Err("usage: /history [number of messages]".to_string()),
    }
}

/// One line of prose for something the node learned.
pub open spec fn event_line(e: &NodeEvent) -> Seq<char> {
    match e {
        NodeEvent::Message(m) => message_line(m),
        NodeEvent::Membership { display_name, user, .. } => "· "@ + display_name@ + " ("@ + crate::proto::ids::hex_encode(
            user@.subrange(0, 4),
        ) + ") is a member"@,
        NodeEvent::ChannelCreated { name, .. } => "· #"@ + name@ + " was created"@,
        NodeEvent::CommunityCreated { name, .. } => "· community "@ + name@ + " exists"@,
        NodeEvent::PeerConnected { peer } => "· connected to "@ + short_peer_of(peer@),
        NodeEvent::PeerDisconnected { peer } => "· lost "@ + short_peer_of(peer@),
        NodeEvent::Synced { peer, applied, .. } => "· caught up on "@ + crate::text::decimal(*applied as nat) + " event"@
            + (if *applied == 1 { seq![] } else { "s"@ }) + " from "@ + short_peer_of(peer@),
        NodeEvent::Listening { addr } => "· listening on "@ + addr@,
        NodeEvent::Warning { message } => "! "@ + message@,
        NodeEvent::Stopped => "· node stopped"@,
    }
}

/// Renders one thing the node learned as a line of prose.
pub fn render_event(e: &NodeEvent) -> (s: String)
    ensures
        s@ == event_line(e),
{
    match e {
        NodeEvent::Message(m) => format_message(m),
        NodeEvent::Membership { display_name, user, .. } => {
            let mut s = "· ".to_string();
            append_str(&mut s, display_name.as_str());
            append_str(&mut s, " (");
            let short = user.short();
            append_str(&mut s, short.as_str());
            append_str(&mut s, ") is a member");
            s
        },
        NodeEvent::ChannelCreated { name, .. } => {
            let mut s = "· #".to_string();
            append_str(&mut s, name.as_str());
            append_str(&mut s, " was created");
            s
        },
        NodeEvent::CommunityCreated { name, .. } => {
            let mut s = "· community ".to_string();
            append_str(&mut s, name.as_str());
            append_str(&mut s, " exists");
            s
        },
        NodeEvent::PeerConnected { peer } => {
            let mut s = "· connected to ".to_string();
            let p = short_peer(peer.as_str());
            append_str(&mut s, p.as_str());
            s
        },
        NodeEvent::PeerDisconnected { peer } => {
            let mut s = "· lost ".to_string();
            let p = short_peer(peer.as_str());
            append_str(&mut s, p.as_str());
            s
        },
        NodeEvent::Synced { peer, applied, .. } => {
            let mut s = "· caught up on ".to_string();
            crate::text::push_decimal(&mut s, *applied as u64);
            append_str(&mut s, " event");
            if *applied != 1 {
                append_str(&mut s, "s");
            }
            append_str(&mut s, " from ");
            let p = short_peer(peer.as_str());
            append_str(&mut s, p.as_str());
            proof {
                if *applied == 1 {
                    assert(s@ =~= "· caught up on "@ + crate::text::decimal(*applied as nat) + " event"@ + seq![] + " from "@ + short_peer_of(peer@));
                }
            }
            s
        },
        NodeEvent::Listening { addr } => {
            let mut s = "· listening on ".to_string();
            append_str(&mut s, addr.as_str());
            s
        },
        NodeEvent::Warning { message } => {
            let mut s = "! ".to_string();
            append_str(&mut s, message.as_str());
            s
        },
        NodeEvent::Stopped => "· node stopped".to_string(),
    }
}

/// Community `c` answers to `needle` exactly: by name, ignoring case, or by
/// the start of its id in hex.
pub open spec fn matches_exactly(c: &CommunitySummary, needle: Seq<char>) -> bool {
    lowercase_of(c.name@) == lowercase_of(needle) || has_prefix(
        crate::proto::ids::hex_encode(c.id@),
        lowercase_of(needle),
    )
}

/// Community `c`'s name starts with `needle`, ignoring case.
pub open spec fn matches_loosely(c: &CommunitySummary, needle: Seq<char>) -> bool {
    has_prefix(lowercase_of(c.name@), lowercase_of(needle))
}

fn text_starts_with(s: &str, prefix: &str) -> (b: bool)
    ensures
        b == has_prefix(s@, prefix@),
{
    crate::text::strip_prefix_text(s, prefix).is_some()
}

fn answers_exactly(c: &CommunitySummary, lower: &str) -> (b: bool)
    ensures
        b == (lowercase_of(c.name@) == lower@ || has_prefix(crate::proto::ids::hex_encode(c.id@), lower@)),
{
    let name = lowercase_text(c.name.as_str());
    let hex = c.id.to_hex();
    same_text(name.as_str(), lower) || text_starts_with(hex.as_str(), lower)
}

/// Which of the communities `/use` means: the first that answers to the
/// name or id exactly, else the first whose name starts with it.
pub fn find_community(needle: &str, communities: &Vec<CommunitySummary>) -> (r: Result<usize, String>)
    ensures
        needle@.len() == 0 ==> (r matches Err(e) && e@ == "usage: /use <community name or id>"@),
        needle@.len() > 0 ==> match r {
            Ok(i) => i < communities@.len() && ((matches_exactly(&communities@[i as int], needle@) && forall|j: int|
                0 <= j < i ==> !matches_exactly(#[trigger] &communities@[j], needle@)) || (forall|j: int|
                0 <= j < communities@.len() ==> !matches_exactly(#[trigger] &communities@[j], needle@))
                && matches_loosely(&communities@[i as int], needle@) && forall|j: int|
                0 <= j < i ==> !matches_loosely(#[trigger] &communities@[j], needle@)),
            Err(e) => (forall|j: int|
                0 <= j < communities@.len() ==> !matches_exactly(#[trigger] &communities@[j], needle@)
                    && !matches_loosely(&communities@[j], needle@)) && e@ == "no community here matches "@ + needle@,
        },
{
    if needle.unicode_len() == 0 {
        return Err("usage: /use <community name or id>".to_string());
    }
    let lower = lowercase_text(needle);
    let mut i: usize = 0;
    while i < communities.len()
        invariant
            lower@ == lowercase_of(needle@),
            needle@.len() > 0,
            i <= communities@.len(),
            forall|j: int| 0 <= j < i ==> !matches_exactly(#[trigger] &communities@[j], needle@),
        decreases communities@.len() - i,
    {
        if answers_exactly(&communities[i], lower.as_str()) {
            return Ok(i);
        }
        i += 1;
    }
    let mut k: usize = 0;
    while k < communities.len()
        invariant
            lower@ == lowercase_of(needle@),
            needle@.len() > 0,
            k <= communities@.len(),
            forall|j: int| 0 <= j < communities@.len() ==> !matches_exactly(#[trigger] &communities@[j], needle@),
            forall|j: int| 0 <= j < k ==> !matches_loosely(#[trigger] &communities@[j], needle@),
        decreases communities@.len() - k,
    {
        let name = lowercase_text(communities[k].name.as_str());
        if text_starts_with(name.as_str(), lower.as_str()) {
            return Ok(k);
        }
        k += 1;
    }
    let mut e = "no community here matches ".to_string();
    append_str(&mut e, needle);
    Err(e)
}

/// How `--reachable` is spelled on the command line.
#[derive(Clone, Copy, Debug, PartialEq, Eq, Structural)]
pub enum ReachabilityArg {
    /// Let peers work it out. The default.
    Auto,
    /// Anybody can dial this node.
    Direct,
    /// A router is in the way; go and find a member to relay.
    Nat,
}

impl ReachabilityArg {
    /// What the operator decided, if anything.
    pub fn resolve(self) -> (r: Option<Reachability>)
        ensures
            r == match self {
                ReachabilityArg::Auto => None,
                ReachabilityArg::Direct => Some(Reachability::Direct),
                ReachabilityArg::Nat => Some(Reachability::BehindNat),
            },
    {
        match self {
            ReachabilityArg::Auto => None,
            ReachabilityArg::Direct => Some(Reachability::Direct),
            ReachabilityArg::Nat => Some(Reachability::BehindNat),
        }
    }
}

} // verus!
