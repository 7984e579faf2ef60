//! VARA commands and responses.
use crate::text::{same, split_words, to_upper, trim};
use vstd::prelude::*;
use vstd::string::*;

verus! {

/// A command on the command port.
#[derive(Debug, Clone, PartialEq, Eq)]
pub enum VaraCommand {
    /// MYCALL callsign.
    MyCall(String),
    /// CONNECT source destination.
    Connect { source: String, destination: String },
    /// DISCONNECT.
    Disconnect,
    /// LISTEN ON or OFF.
    Listen(bool),
    /// COMPRESSION ON or OFF.
    Compression(bool),
    /// BW500, BW2300 or BW2750.
    Bandwidth(u32),
    /// ABORT.
    Abort,
    /// VERSION.
    Version,
    /// Anything else.
    Unknown(String),
}

/// What a command says.
pub enum CommandContent {
    MyCall(Seq<char>),
    Connect { source: Seq<char>, destination: Seq<char> },
    Disconnect,
    Listen(bool),
    Compression(bool),
    Bandwidth(u32),
    Abort,
    Version,
    Unknown(Seq<char>),
}

impl View for VaraCommand {
    type V = CommandContent;

    open spec fn view(&self) -> CommandContent {
        match *self {
            VaraCommand::MyCall(c) => CommandContent::MyCall(c@),
            VaraCommand::Connect { source, destination } => CommandContent::Connect {
                source: source@,
                destination: destination@,
            },
            VaraCommand::Disconnect => CommandContent::Disconnect,
            VaraCommand::Listen(on) => CommandContent::Listen(on),
            VaraCommand::Compression(on) => CommandContent::Compression(on),
            VaraCommand::Bandwidth(n) => CommandContent::Bandwidth(n),
            VaraCommand::Abort => CommandContent::Abort,
            VaraCommand::Version => CommandContent::Version,
            VaraCommand::Unknown(s) => CommandContent::Unknown(s@),
        }
    }
}

/// The command of a keyword and its arguments. `parts` are the words of the
/// line, the keyword included; `switch` is the second one in uppercase.
pub open spec fn command_of(
    keyword: Seq<char>,
    switch: Option<Seq<char>>,
    parts: Seq<Seq<char>>,
    line: Seq<char>,
) -> CommandContent {
    let on = switch == Some("ON"@);
    if keyword == "MYCALL"@ {
        if parts.len() > 1 {
            CommandContent::MyCall(parts[1])
        } else {
            CommandContent::Unknown(line)
        }
    } else if keyword == "CONNECT"@ {
        if parts.len() > 2 {
            CommandContent::Connect { source: parts[1], destination: parts[2] }
        } else {
            CommandContent::Unknown(line)
        }
    } else if keyword == "DISCONNECT"@ {
        CommandContent::Disconnect
    } else if keyword == "LISTEN"@ {
        CommandContent::Listen(on)
    } else if keyword == "COMPRESSION"@ {
        CommandContent::Compression(on)
    } else if keyword == "BW500"@ {
        CommandContent::Bandwidth(500)
    } else if keyword == "BW2300"@ {
        CommandContent::Bandwidth(2300)
    } else if keyword == "BW2750"@ {
        CommandContent::Bandwidth(2750)
    } else if keyword == "ABORT"@ {
        CommandContent::Abort
    } else if keyword == "VERSION"@ {
        CommandContent::Version
    } else {
        CommandContent::Unknown(line)
    }
}

/// The command of a line, where `upper` gives the uppercase form of a word.
/// White space around the line does not count, and neither does the case of the
/// keyword and of the switch.
pub open spec fn parsed_with(
    input: Seq<char>,
    upper: spec_fn(Seq<char>) -> Seq<char>,
) -> CommandContent {
    let line = crate::text::trimmed(input);
    let parts = crate::text::split_at_spaces(line, 4);
    command_of(
        upper(parts[0]),
        if parts.len() > 1 {
            Some(upper(parts[1]))
        } else {
            None
        },
        parts,
        line,
    )
}

/// The command of a line.
pub open spec fn parsed(input: Seq<char>) -> CommandContent {
    parsed_with(input, |word: Seq<char>| crate::text::uppercase(word))
}

/// The command of a line of ASCII characters.
pub open spec fn parsed_ascii(input: Seq<char>) -> CommandContent {
    parsed_with(input, |word: Seq<char>| crate::text::ascii_uppercase(word))
}

/// The text of an optional string.
pub open spec fn optional_text(s: Option<String>) -> Option<Seq<char>> {
    match s {
        Some(t) => Some(t@),
        None => None,
    }
}

/// A line has at least one part.
proof fn lemma_split_is_not_empty(s: Seq<char>, n: nat)
    ensures
        crate::text::split_at_spaces(s, n).len() >= 1,
{
}

impl VaraCommand {
    /// The command of a line.
    pub fn parse(input: &str) -> (c: Self)
        ensures
            c@ == parsed(input@),
            vstd::utf8::is_ascii_chars(input@) ==> c@ == parsed_ascii(input@),
    {
        let line = trim(input);
        let parts: Vec<String> = split_words(line, 4);
        proof {
            lemma_split_is_not_empty(line@, 4);
            if vstd::utf8::is_ascii_chars(input@) {
                crate::text::lemma_trimmed_ascii(input@);
                crate::text::lemma_parts_ascii(line@, 4);
            }
            assert(crate::text::texts(parts@)[0] == parts@[0]@);
        }
        let keyword = to_upper(parts[0].as_str());
        let switch: Option<String> = if parts.len() > 1 {
            assert(crate::text::texts(parts@)[1] == parts@[1]@);
            Some(to_upper(parts[1].as_str()))
        } else {
            None
        };
        VaraCommand::from_words(keyword.as_str(), &switch, &parts, line)
    }

    /// The command of a keyword in uppercase, its switch in uppercase, the
    /// words and the line.
    pub fn from_words(
        keyword: &str,
        switch: &Option<String>,
        parts: &Vec<String>,
        line: &str,
    ) -> (c: Self)
        ensures
            c@ == command_of(
                keyword@,
                optional_text(*switch),
                crate::text::texts(parts@),
                line@,
            ),
    {
        let on: bool = match switch {
            Some(s) => same(s.as_str(), "ON"),
            None => false,
        };
        proof {
            if parts@.len() > 1 {
                assert(crate::text::texts(parts@)[1] == parts@[1]@);
            }
            if parts@.len() > 2 {
                assert(crate::text::texts(parts@)[2] == parts@[2]@);
            }
        }
        if same(keyword, "MYCALL") {
            if parts.len() > 1 {
                VaraCommand::MyCall(parts[1].clone())
            } else {
                VaraCommand::Unknown(String::from_str(line))
            }
        } else if same(keyword, "CONNECT") {
            if parts.len() > 2 {
                VaraCommand::Connect { source: parts[1].clone(), destination: parts[2].clone() }
            } else {
                VaraCommand::Unknown(String::from_str(line))
            }
        } else if same(keyword, "DISCONNECT") {
            VaraCommand::Disconnect
        } else if same(keyword, "LISTEN") {
            VaraCommand::Listen(on)
        } else if same(keyword, "COMPRESSION") {
            VaraCommand::Compression(on)
        } else if same(keyword, "BW500") {
            VaraCommand::Bandwidth(500)
        } else if same(keyword, "BW2300") {
            VaraCommand::Bandwidth(2300)
        } else if same(keyword, "BW2750") {
            VaraCommand::Bandwidth(2750)
        } else if same(keyword, "ABORT") {
            VaraCommand::Abort
        } else if same(keyword, "VERSION") {
            VaraCommand::Version
        } else {
            VaraCommand::Unknown(String::from_str(line))
        }
    }
}

/// White space around a line does not change the command.
pub proof fn law_white_space_does_not_count(line: Seq<char>)
    ensures
        parsed(crate::text::trimmed(line)) == parsed(line),
        parsed_ascii(crate::text::trimmed(line)) == parsed_ascii(line),
{
    crate::text::law_trim_is_idempotent(line);
}

/// A response on the command port.
#[derive(Debug, Clone, PartialEq, Eq)]
pub enum VaraResponse {
    /// The command is accepted.
    Accepted,
    /// The command is not understood.
    Wrong,
    /// The version of the modem.
    Version(String),
    /// A connection is being made.
    Pending,
    /// Two stations are connected.
    Connected(String, String),
    /// The connection has ended.
    Disconnected,
    /// The transmitter is keyed or not.
    Ptt(bool),
    /// Bytes that wait to be sent.
    Buffer(usize),
    /// The channel is busy or not.
    Busy(bool),
    /// Signal-to-noise ratio.
    Snr(i32),
}

/// ON or OFF.
pub open spec fn switch_text(on: bool) -> Seq<char> {
    if on {
        "ON"@
    } else {
        "OFF"@
    }
}

/// A response in words, without the end of the line.
pub open spec fn response_text(r: VaraResponse) -> Seq<char> {
    match r {
        VaraResponse::Accepted => "OK"@,
        VaraResponse::Wrong => "WRONG"@,
        VaraResponse::Version(v) => "VERSION "@ + v@,
        VaraResponse::Pending => "PENDING"@,
        VaraResponse::Connected(src, dst) => "CONNECTED "@ + src@ + " "@ + dst@,
        VaraResponse::Disconnected => "DISCONNECTED"@,
        VaraResponse::Ptt(on) => "PTT "@ + switch_text(on),
        VaraResponse::Buffer(n) => "BUFFER "@ + crate::text::decimal(n as nat),
        VaraResponse::Busy(b) => "BUSY "@ + switch_text(b),
        VaraResponse::Snr(snr) => "SNR "@ + crate::text::signed_decimal(snr as int),
    }
}

impl VaraResponse {
    /// The line to send to the client.
    pub fn format(&self) -> (line: String)
        ensures
            line@ == response_text(*self) + "\r\n"@,
    {
        let mut line = match self {
            VaraResponse::Accepted => String::from_str("OK"),
            VaraResponse::Wrong => String::from_str("WRONG"),
            VaraResponse::Version(v) => {
                let mut s = String::from_str("VERSION ");
                s.append(v.as_str());
                s
            },
            VaraResponse::Pending => String::from_str("PENDING"),
            VaraResponse::Connected(src, dst) => {
                let mut s = String::from_str("CONNECTED ");
                s.append(src.as_str());
                s.append(" ");
                s.append(dst.as_str());
                s
            },
            VaraResponse::Disconnected => String::from_str("DISCONNECTED"),
            VaraResponse::Ptt(on) => {
                let mut s = String::from_str("PTT ");
                s.append(if *on {
                    "ON"
                } else {
                    "OFF"
                });
                s
            },
            VaraResponse::Buffer(n) => {
                let mut s = String::from_str("BUFFER ");
                crate::text::push_decimal(&mut s, *n as u64);
                s
            },
            VaraResponse::Busy(b) => {
                let mut s = String::from_str("BUSY ");
                s.append(if *b {
                    "ON"
                } else {
                    "OFF"
                });
                s
            },
            VaraResponse::Snr(snr) => {
                let mut s = String::from_str("SNR ");
                crate::text::push_signed_decimal(&mut s, *snr as i64);
                s
            },
        };
        line.append("\r\n");
        line
    }
}

/// What each keyword makes of its words and of the switch. A keyword without the
/// words it needs is not understood.
pub proof fn law_keywords(switch: Option<Seq<char>>, parts: Seq<Seq<char>>, line: Seq<char>)
    ensures
        command_of("MYCALL"@, switch, parts, line) == (if parts.len() >= 2 {
            CommandContent::MyCall(parts[1])
        } else {
            CommandContent::Unknown(line)
        }),
        command_of("CONNECT"@, switch, parts, line) == (if parts.len() >= 3 {
            CommandContent::Connect { source: parts[1], destination: parts[2] }
        } else {
            CommandContent::Unknown(line)
        }),
        command_of("DISCONNECT"@, switch, parts, line) == CommandContent::Disconnect,
        command_of("LISTEN"@, switch, parts, line) == CommandContent::Listen(
            switch == Some("ON"@),
        ),
        command_of("COMPRESSION"@, switch, parts, line) == CommandContent::Compression(
            switch == Some("ON"@),
        ),
        command_of("BW500"@, switch, parts, line) == CommandContent::Bandwidth(500),
        command_of("BW2300"@, switch, parts, line) == CommandContent::Bandwidth(2300),
        command_of("BW2750"@, switch, parts, line) == CommandContent::Bandwidth(2750),
        command_of("ABORT"@, switch, parts, line) == CommandContent::Abort,
        command_of("VERSION"@, switch, parts, line) == CommandContent::Version,
{
    reveal_strlit("MYCALL");
    reveal_strlit("CONNECT");
    reveal_strlit("DISCONNECT");
    reveal_strlit("LISTEN");
    reveal_strlit("COMPRESSION");
    reveal_strlit("BW500");
    reveal_strlit("BW2300");
    reveal_strlit("BW2750");
    reveal_strlit("ABORT");
    reveal_strlit("VERSION");
    assert("MYCALL"@[0] == 'M');
    assert("CONNECT"@[2] == 'N');
    assert("COMPRESSION"@[2] == 'M');
    assert("DISCONNECT"@[0] == 'D');
    assert("LISTEN"@[0] == 'L');
    assert("BW500"@[0] == 'B' && "BW500"@[2] == '5');
    assert("BW2300"@[0] == 'B' && "BW2300"@[2] == '2' && "BW2300"@[3] == '3');
    assert("BW2750"@[0] == 'B' && "BW2750"@[2] == '2' && "BW2750"@[3] == '7');
    assert("ABORT"@[0] == 'A');
    assert("VERSION"@[0] == 'V');
    assert("CONNECT"@[0] == 'C' && "COMPRESSION"@[0] == 'C');
}

/// Every other keyword is not understood, and the line is kept.
pub proof fn law_other_keywords(
    keyword: Seq<char>,
    switch: Option<Seq<char>>,
    parts: Seq<Seq<char>>,
    line: Seq<char>,
)
    requires
        keyword != "MYCALL"@ && keyword != "CONNECT"@ && keyword != "DISCONNECT"@,
        keyword != "LISTEN"@ && keyword != "COMPRESSION"@,
        keyword != "BW500"@ && keyword != "BW2300"@ && keyword != "BW2750"@,
        keyword != "ABORT"@ && keyword != "VERSION"@,
    ensures
        command_of(keyword, switch, parts, line) == CommandContent::Unknown(line),
{
}

/// How a line is read: it is cut at its first three spaces, its first word is
/// the keyword and its second one the switch, both in uppercase. Here `a`, `b`
/// and `c` are words without a space, and `rest` is what follows them.
pub proof fn law_words_of_a_line(
    input: Seq<char>,
    upper: spec_fn(Seq<char>) -> Seq<char>,
    a: Seq<char>,
    b: Seq<char>,
    c: Seq<char>,
    rest: Seq<char>,
)
    requires
        forall|i: int| 0 <= i < a.len() ==> #[trigger] a[i] != ' ',
        forall|i: int| 0 <= i < b.len() ==> #[trigger] b[i] != ' ',
        forall|i: int| 0 <= i < c.len() ==> #[trigger] c[i] != ' ',
    ensures
        ({
            let line = crate::text::trimmed(input);
            &&& line == a ==> parsed_with(input, upper) == command_of(
                upper(a),
                None,
                seq![a],
                line,
            )
            &&& line == a + seq![' '] + b ==> parsed_with(input, upper) == command_of(
                upper(a),
                Some(upper(b)),
                seq![a, b],
                line,
            )
            &&& line == a + seq![' '] + (b + seq![' '] + c) ==> parsed_with(input, upper)
                == command_of(upper(a), Some(upper(b)), seq![a, b, c], line)
            &&& line == a + seq![' '] + (b + seq![' '] + (c + seq![' '] + rest)) ==> parsed_with(
                input,
                upper,
            ) == command_of(upper(a), Some(upper(b)), seq![a, b, c, rest], line)
        }),
{
    let bc = b + seq![' '] + c;
    let tail = c + seq![' '] + rest;
    crate::text::law_cut_at_spaces(a, b, rest, 4);
    crate::text::law_cut_at_spaces(b, c, rest, 3);
    crate::text::law_cut_at_spaces(c, rest, rest, 2);
    crate::text::law_cut_at_spaces(a, bc, rest, 4);
    crate::text::law_cut_at_spaces(a, b + seq![' '] + tail, rest, 4);
    crate::text::law_cut_at_spaces(b, tail, rest, 3);
    assert(seq![a] + seq![b] =~= seq![a, b]);
    assert(seq![a] + (seq![b] + seq![c]) =~= seq![a, b, c]);
    assert(seq![a] + (seq![b] + (seq![c] + seq![rest])) =~= seq![a, b, c, rest]);
}

/// The words of the responses.
pub proof fn law_responses(text: String, other: String, on: bool, n: usize, snr: i32)
    ensures
        response_text(VaraResponse::Accepted) == "OK"@,
        response_text(VaraResponse::Wrong) == "WRONG"@,
        response_text(VaraResponse::Version(text)) == "VERSION "@ + text@,
        response_text(VaraResponse::Pending) == "PENDING"@,
        response_text(VaraResponse::Connected(text, other)) == "CONNECTED "@ + text@ + " "@
            + other@,
        response_text(VaraResponse::Disconnected) == "DISCONNECTED"@,
        response_text(VaraResponse::Ptt(true)) == "PTT "@ + "ON"@,
        response_text(VaraResponse::Ptt(false)) == "PTT "@ + "OFF"@,
        response_text(VaraResponse::Buffer(n)) == "BUFFER "@ + crate::text::decimal(n as nat),
        response_text(VaraResponse::Busy(true)) == "BUSY "@ + "ON"@,
        response_text(VaraResponse::Busy(false)) == "BUSY "@ + "OFF"@,
        snr >= 0 ==> response_text(VaraResponse::Snr(snr)) == "SNR "@ + crate::text::decimal(
            snr as nat,
        ),
        snr < 0 ==> response_text(VaraResponse::Snr(snr)) == "SNR "@ + (seq!['-']
            + crate::text::decimal((-snr) as nat)),
{
}

} // verus!
