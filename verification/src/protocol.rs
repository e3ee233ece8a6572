//! The line protocol: commands sent by a client, messages sent by the
//! server, and the whitespace tokenizer both decoders share.  A malformed
//! line yields a `DecodeError`, never a crash.

use vstd::prelude::*;

verus! {

/// The whitespace characters recognized by the tokenizer: the Unicode
/// white-space characters.
pub open spec fn is_space(c: char) -> bool {
    ||| c == '\u{9}'
    ||| c == '\u{a}'
    ||| c == '\u{b}'
    ||| c == '\u{c}'
    ||| c == '\u{d}'
    ||| c == ' '
    ||| c == '\u{85}'
    ||| c == '\u{a0}'
    ||| c == '\u{1680}'
    ||| c == '\u{2000}'
    ||| c == '\u{2001}'
    ||| c == '\u{2002}'
    ||| c == '\u{2003}'
    ||| c == '\u{2004}'
    ||| c == '\u{2005}'
    ||| c == '\u{2006}'
    ||| c == '\u{2007}'
    ||| c == '\u{2008}'
    ||| c == '\u{2009}'
    ||| c == '\u{200a}'
    ||| c == '\u{2028}'
    ||| c == '\u{2029}'
    ||| c == '\u{202f}'
    ||| c == '\u{205f}'
    ||| c == '\u{3000}'
}

#[verifier::when_used_as_spec(is_space)]
fn is_space_char(c: char) -> (r: bool)
    ensures
        r == is_space(c),
{
    c == '\u{9}' || c == '\u{a}' || c == '\u{b}' || c == '\u{c}' || c == '\u{d}' || c == ' '
        || c == '\u{85}' || c == '\u{a0}' || c == '\u{1680}' || c == '\u{2000}' || c == '\u{2001}'
        || c == '\u{2002}' || c == '\u{2003}' || c == '\u{2004}' || c == '\u{2005}'
        || c == '\u{2006}' || c == '\u{2007}' || c == '\u{2008}' || c == '\u{2009}'
        || c == '\u{200a}' || c == '\u{2028}' || c == '\u{2029}' || c == '\u{202f}'
        || c == '\u{205f}' || c == '\u{3000}'
}

/// The whitespace split of a character sequence: its maximal runs of
/// non-space characters, in order.
pub open spec fn split_ws(s: Seq<char>) -> Seq<Seq<char>>
    decreases s.len(),
{
    if s.len() == 0 {
        Seq::<Seq<char>>::empty()
    } else if is_space(s[0]) {
        split_ws(s.drop_first())
    } else if s.len() == 1 || is_space(s[1]) {
        seq![seq![s[0]]] + split_ws(s.drop_first())
    } else {
        let r = split_ws(s.drop_first());
        seq![seq![s[0]] + r[0]] + r.drop_first()
    }
}

/// The views of a vector of strings, as a sequence of character sequences.
pub open spec fn views_of(v: Seq<String>) -> Seq<Seq<char>> {
    Seq::new(v.len(), |i: int| v[i]@)
}

/// A maximal non-space run at the front splits off as one token.
proof fn lemma_split_ws_token(tok: Seq<char>, rest: Seq<char>)
    requires
        tok.len() > 0,
        forall|x: int| 0 <= x < tok.len() ==> !is_space(#[trigger] tok[x]),
        rest.len() == 0 || is_space(rest[0]),
    ensures
        split_ws(tok + rest) == seq![tok] + split_ws(rest),
    decreases tok.len(),
{
    let s = tok + rest;
    assert(s[0] == tok[0]);
    if tok.len() == 1 {
        assert(s.drop_first() =~= rest);
        assert(seq![s[0]] =~= tok);
        if rest.len() == 0 {
            assert(s.len() == 1);
            assert(split_ws(s) =~= seq![tok] + split_ws(rest));
        } else {
            assert(s[1] == rest[0]);
            assert(split_ws(s) =~= seq![tok] + split_ws(rest));
        }
    } else {
        assert(s[1] == tok[1]);
        assert(!is_space(s[0]) && !is_space(s[1]));
        assert(s.drop_first() =~= tok.drop_first() + rest);
        assert forall|x: int| 0 <= x < tok.drop_first().len() implies !is_space(
            #[trigger] tok.drop_first()[x],
        ) by {
            assert(tok.drop_first()[x] == tok[x + 1]);
        }
        lemma_split_ws_token(tok.drop_first(), rest);
        let r = split_ws(s.drop_first());
        assert(r == seq![tok.drop_first()] + split_ws(rest));
        assert(r[0] == tok.drop_first());
        assert(r.drop_first() =~= split_ws(rest));
        assert(seq![s[0]] + r[0] =~= tok);
        assert(split_ws(s) == seq![seq![s[0]] + r[0]] + r.drop_first());
        assert(seq![seq![s[0]] + r[0]] + r.drop_first() =~= seq![tok] + split_ws(rest));
    }
}

/// Compare two string slices character by character.
pub(crate) fn str_eq(a: &str, b: &str) -> (r: bool)
    ensures
        r == (a@ == b@),
{
    let na = a.unicode_len();
    let nb = b.unicode_len();
    if na != nb {
        return false;
    }
    let mut i: usize = 0;
    while i < na
        invariant
            i <= na,
            na == a@.len(),
            nb == b@.len(),
            na == nb,
            forall|x: int| 0 <= x < i ==> a@[x] == b@[x],
        decreases na - i,
    {
        let ca = a.get_char(i);
        let cb = b.get_char(i);
        if ca != cb {
            return false;
        }
        i = i + 1;
    }
    proof {
        assert(a@ =~= b@);
    }
    true
}

/// Split a line into its whitespace-separated tokens.
fn split_whitespace_vec(line: &str) -> (tokens: Vec<String>)
    ensures
        views_of(tokens@) == split_ws(line@),
{
    let n: usize = line.unicode_len();
    let mut tokens: Vec<String> = Vec::new();
    let mut i: usize = 0;
    proof {
        assert(line@.subrange(0, n as int) =~= line@);
        assert(views_of(tokens@) =~= Seq::<Seq<char>>::empty());
    }
    while i < n
        invariant
            i <= n,
            n == line@.len(),
            split_ws(line@) == views_of(tokens@) + split_ws(line@.subrange(i as int, n as int)),
        decreases n - i,
    {
        let c = line.get_char(i);
        if is_space_char(c) {
            proof {
                let ghost rem = line@.subrange(i as int, n as int);
                assert(rem[0] == line@[i as int]);
                assert(rem.drop_first() =~= line@.subrange(i + 1, n as int));
            }
            i = i + 1;
        } else {
            let start = i;
            i = i + 1;
            loop
                invariant
                    start < i <= n,
                    n == line@.len(),
                    forall|x: int| start <= x < i ==> !is_space(#[trigger] line@[x]),
                ensures
                    start < i <= n,
                    forall|x: int| start <= x < i ==> !is_space(#[trigger] line@[x]),
                    i == n || is_space(line@[i as int]),
                decreases n - i,
            {
                if i >= n {
                    break;
                }
                let c2 = line.get_char(i);
                if is_space_char(c2) {
                    break;
                }
                i = i + 1;
            }
            let tok_str = line.substring_char(start, i);
            let tok = tok_str.to_owned();
            let ghost tokens_old = tokens@;
            proof {
                let ghost tokv = line@.subrange(start as int, i as int);
                assert(tok@ == tokv);
                assert forall|x: int| 0 <= x < tokv.len() implies !is_space(#[trigger] tokv[x]) by {
                    assert(tokv[x] == line@[start + x]);
                }
                let ghost rest = line@.subrange(i as int, n as int);
                if i < n {
                    assert(rest[0] == line@[i as int]);
                }
                lemma_split_ws_token(tokv, rest);
                assert(line@.subrange(start as int, n as int) =~= tokv + rest);
            }
            tokens.push(tok);
            proof {
                let ghost tokv = line@.subrange(start as int, i as int);
                let ghost rest = line@.subrange(i as int, n as int);
                assert(views_of(tokens@) =~= views_of(tokens_old) + seq![tokv]);
                assert(views_of(tokens_old) + seq![tokv] + split_ws(rest) =~= views_of(tokens_old)
                    + (seq![tokv] + split_ws(rest)));
                assert(split_ws(line@) == views_of(tokens@) + split_ws(rest));
            }
        }
    }
    proof {
        assert(line@.subrange(n as int, n as int) =~= Seq::<char>::empty());
        assert(views_of(tokens@) + Seq::<Seq<char>>::empty() =~= views_of(tokens@));
    }
    tokens
}

/// A command arriving on the client-to-server direction of the wire.
#[derive(Debug, Clone, PartialEq, Eq)]
pub enum UserCommand {
    Guess { guess: String },
    Exit,
}

/// A message arriving on the server-to-client direction of the wire.
#[derive(Debug, Clone, PartialEq, Eq)]
pub enum ServerMessage {
    Update { new_riddle: String },
    Accepted,
    Rejected,
    Close,
}

/// Why a line failed to decode.
#[derive(Debug, Clone, PartialEq, Eq)]
pub enum DecodeError {
    EmptyInput,
    UnknownCommand,
}

impl UserCommand {
    /// Decode one inbound line: `guess <word>` or `exit`; anything else is
    /// a decode error, an empty line its own variant.
    pub fn parse_line(line: &str) -> (r: Result<UserCommand, DecodeError>)
        ensures
            ({
                let toks = split_ws(line@);
                match r {
                    Ok(UserCommand::Guess { guess }) => toks.len() == 2 && toks[0] == "guess"@
                        && guess@ == toks[1],
                    Ok(UserCommand::Exit) => toks.len() == 1 && toks[0] == "exit"@,
                    Err(DecodeError::EmptyInput) => toks.len() == 0,
                    Err(DecodeError::UnknownCommand) => toks.len() != 0 && !(toks.len() == 2
                        && toks[0] == "guess"@) && !(toks.len() == 1 && toks[0] == "exit"@),
                }
            }),
    {
        let tokens = split_whitespace_vec(line);
        if tokens.len() == 0 {
            return Err(DecodeError::EmptyInput);
        }
        if tokens.len() == 2 && str_eq(tokens[0].as_str(), "guess") {
            let g = tokens[1].clone();
            return Ok(UserCommand::Guess { guess: g });
        }
        if tokens.len() == 1 && str_eq(tokens[0].as_str(), "exit") {
            return Ok(UserCommand::Exit);
        }
        Err(DecodeError::UnknownCommand)
    }

    /// The wire form of the command, every line newline-terminated:
    /// `guess <word>` or `exit`.
    pub fn render_line(&self) -> (r: String)
        ensures
            ({
                match self {
                    UserCommand::Guess { guess } => r@ == "guess "@ + guess@ + "\n"@,
                    UserCommand::Exit => r@ == "exit\n"@,
                }
            }),
    {
        match self {
            UserCommand::Guess { guess } => {
                let mut s = String::from_str("guess ");
                s.append(guess.as_str());
                s.append("\n");
                s
            },
            UserCommand::Exit => String::from_str("exit\n"),
        }
    }
}

impl ServerMessage {
    /// Decode one server line, in the forms `render_line` writes: `update
    /// <word>`, `accept`, `reject` or `close`; anything else is a decode
    /// error.
    pub fn parse_line(line: &str) -> (r: Result<ServerMessage, DecodeError>)
        ensures
            ({
                let toks = split_ws(line@);
                match r {
                    Ok(ServerMessage::Update { new_riddle }) => toks.len() == 2 && toks[0]
                        == "update"@ && new_riddle@ == toks[1],
                    Ok(ServerMessage::Accepted) => toks.len() == 1 && toks[0] == "accept"@,
                    Ok(ServerMessage::Rejected) => toks.len() == 1 && toks[0] == "reject"@,
                    Ok(ServerMessage::Close) => toks.len() == 1 && toks[0] == "close"@,
                    Err(DecodeError::EmptyInput) => toks.len() == 0,
                    Err(DecodeError::UnknownCommand) => toks.len() != 0 && !(toks.len() == 2
                        && toks[0] == "update"@) && !(toks.len() == 1 && (toks[0] == "accept"@
                        || toks[0] == "reject"@ || toks[0] == "close"@)),
                }
            }),
    {
        let tokens = split_whitespace_vec(line);
        if tokens.len() == 0 {
            return Err(DecodeError::EmptyInput);
        }
        if tokens.len() == 2 && str_eq(tokens[0].as_str(), "update") {
            let w = tokens[1].clone();
            return Ok(ServerMessage::Update { new_riddle: w });
        }
        if tokens.len() == 1 && str_eq(tokens[0].as_str(), "accept") {
            return Ok(ServerMessage::Accepted);
        }
        if tokens.len() == 1 && str_eq(tokens[0].as_str(), "reject") {
            return Ok(ServerMessage::Rejected);
        }
        if tokens.len() == 1 && str_eq(tokens[0].as_str(), "close") {
            return Ok(ServerMessage::Close);
        }
        Err(DecodeError::UnknownCommand)
    }

    /// The wire form of the message, every line newline-terminated.
    pub fn render_line(&self) -> (r: String)
        ensures
            ({
                match self {
                    ServerMessage::Update { new_riddle } => r@ == "update "@ + new_riddle@ + "\n"@,
                    ServerMessage::Accepted => r@ == "accept\n"@,
                    ServerMessage::Rejected => r@ == "reject\n"@,
                    ServerMessage::Close => r@ == "close\n"@,
                }
            }),
    {
        match self {
            ServerMessage::Update { new_riddle } => {
                let mut s = String::from_str("update ");
                s.append(new_riddle.as_str());
                s.append("\n");
                s
            },
            ServerMessage::Accepted => String::from_str("accept\n"),
            ServerMessage::Rejected => String::from_str("reject\n"),
            ServerMessage::Close => String::from_str("close\n"),
        }
    }
}

} // verus!
