use vstd::prelude::*;

use crate::codec::{encode_text, i32_of, string_of, DecodeError, DecodeErrorKind, TokenReader};
use crate::consts::{MAX_LOGIN_LEN, MAX_PASSWORD_LEN};
use crate::game_state::{has_named, is_first_named, GameState};
use crate::text::{chars_of, parse_bounded, same_text, tokens};

verus! {

/// Why a login is refused.
#[derive(Clone, Copy, Debug, PartialEq, Eq, Structural)]
pub enum LoginError {
    /// More than `MAX_LOGIN_LEN` bytes.
    TooLong,
    /// A character outside ASCII.
    NotAscii,
}

/// A login is at most `MAX_LOGIN_LEN` bytes long and ASCII.
pub fn validate_login(login: &str) -> (r: Result<(), LoginError>)
    ensures
        r == if login.len() > MAX_LOGIN_LEN {
            Err::<(), LoginError>(LoginError::TooLong)
        } else if !login.is_ascii() {
            Err(LoginError::NotAscii)
        } else {
            Ok(())
        },
{
    if login.len() > MAX_LOGIN_LEN {
        return Err(LoginError::TooLong);
    }
    if !login.is_ascii() {
        return Err(LoginError::NotAscii);
    }
    Ok(())
}

/// Why a password is refused.
#[derive(Clone, Copy, Debug, PartialEq, Eq, Structural)]
pub enum PasswordError {
    /// `GO`, which reads as the move command.
    Reserved,
    /// Not the password the login was registered with.
    Mismatch,
    /// A new password longer than `MAX_PASSWORD_LEN` bytes.
    TooLong,
}

/// A password that was accepted.
#[derive(Clone, Copy, Debug, PartialEq, Eq, Structural)]
pub enum PasswordCheck {
    /// It matches the login's password.
    Matched,
    /// The login was new and is now registered with it.
    Registered,
}

/// One registration: a login and its password.
#[derive(Clone, Debug)]
pub struct Credential {
    pub login: String,
    pub password: String,
}

/// Logins and their passwords; a later registration of a login wins.
pub struct PasswordTable {
    entries: Vec<Credential>,
}

/// The password of `login` in `entries`: the one registered last.
pub open spec fn password_in(entries: Seq<(Seq<char>, Seq<char>)>, login: Seq<char>) -> Option<
    Seq<char>,
>
    decreases entries.len(),
{
    if entries.len() == 0 {
        None
    } else if entries.last().0 == login {
        Some(entries.last().1)
    } else {
        password_in(entries.drop_last(), login)
    }
}

pub open spec fn go_word() -> Seq<char> {
    seq!['G', 'O']
}

impl View for PasswordTable {
    type V = Seq<(Seq<char>, Seq<char>)>;

    closed spec fn view(&self) -> Seq<(Seq<char>, Seq<char>)> {
        self.entries@.map_values(|c: Credential| (c.login@, c.password@))
    }
}

impl PasswordTable {
    /// No registrations.
    pub fn new() -> (r: PasswordTable)
        ensures
            r@.len() == 0,
    {
        let r = PasswordTable { entries: Vec::new() };
        assert(r@ =~= Seq::<(Seq<char>, Seq<char>)>::empty());
        r
    }

    /// Registers `login` with `password`, replacing an earlier registration.
    pub fn register(&mut self, login: String, password: String)
        ensures
            final(self)@ == old(self)@.push((login@, password@)),
    {
        let ghost l = login@;
        let ghost p = password@;
        self.entries.push(Credential { login, password });
        assert(self@ =~= old(self)@.push((l, p)));
    }

    /// The password registered last for `login`.
    pub fn password_of(&self, login: &str) -> (r: Option<&String>)
        ensures
            match r {
                Some(p) => password_in(self@, login@) == Some(p@),
                None => password_in(self@, login@) is None,
            },
    {
        let mut i = self.entries.len();
        assert(self@.take(i as int) =~= self@);
        while i > 0
            invariant
                i <= self.entries.len(),
                password_in(self@, login@) == password_in(self@.take(i as int), login@),
            decreases i,
        {
            let ghost t = self@.take(i as int);
            assert(t.drop_last() =~= self@.take(i - 1));
            assert(t.last() == (self.entries@[i - 1].login@, self.entries@[i - 1].password@));
            if same_text(self.entries[i - 1].login.as_str(), login) {
                return Some(&self.entries[i - 1].password);
            }
            i = i - 1;
        }
        None
    }

    /// Checks a login's password: `GO` is always refused; a known login must give its
    /// password; a new login registers the password unless it is longer than
    /// `MAX_PASSWORD_LEN` bytes.
    pub fn check_password(&mut self, login: &str, password: &str) -> (r: Result<
        PasswordCheck,
        PasswordError,
    >)
        ensures
            password@ == go_word() ==> r == Err::<PasswordCheck, PasswordError>(
                PasswordError::Reserved,
            ),
            password@ != go_word() && password_in(old(self)@, login@) is Some ==> r == if password_in(
                old(self)@,
                login@,
            ) == Some(password@) {
                Ok::<PasswordCheck, PasswordError>(PasswordCheck::Matched)
            } else {
                Err(PasswordError::Mismatch)
            },
            password@ != go_word() && password_in(old(self)@, login@) is None ==> r == if password.len()
                > MAX_PASSWORD_LEN {
                Err::<PasswordCheck, PasswordError>(PasswordError::TooLong)
            } else {
                Ok(PasswordCheck::Registered)
            },
            r == Ok::<PasswordCheck, PasswordError>(PasswordCheck::Registered) ==> final(self)@
                == old(self)@.push((login@, password@)),
            r != Ok::<PasswordCheck, PasswordError>(PasswordCheck::Registered) ==> final(self)@
                == old(self)@,
    {
        let go = chars_of(password);
        if go.len() == 2 && go[0] == 'G' && go[1] == 'O' {
            assert(password@ =~= go_word());
            return Err(PasswordError::Reserved);
        }
        proof {
            if password@ == go_word() {
                assert(go@[0] == 'G' && go@[1] == 'O');
            }
        }
        match self.password_of(login) {
            Some(expected) => {
                if same_text(expected.as_str(), password) {
                    Ok(PasswordCheck::Matched)
                } else {
                    Err(PasswordError::Mismatch)
                }
            },
            None => {
                if password.len() > MAX_PASSWORD_LEN {
                    return Err(PasswordError::TooLong);
                }
                self.register(login.to_owned(), password.to_owned());
                Ok(PasswordCheck::Registered)
            },
        }
    }
}

/// What a connection declares itself after the greeting.
#[derive(Clone, Copy, Debug, PartialEq, Eq, Structural)]
pub enum Greeting {
    Watch,
    Play,
    Other,
}

pub open spec fn watch_word() -> Seq<char> {
    seq!['W', 'A', 'T', 'C', 'H']
}

pub open spec fn play_word() -> Seq<char> {
    seq!['P', 'L', 'A', 'Y']
}

pub open spec fn exit_word() -> Seq<char> {
    seq!['E', 'X', 'I', 'T']
}

fn is_word_of(token: &str, w: &Vec<char>) -> (r: bool)
    ensures
        r == (token@ == w@),
{
    let t = chars_of(token);
    if t.len() != w.len() {
        return false;
    }
    let mut i: usize = 0;
    while i < t.len()
        invariant
            i <= t.len() == w.len(),
            t@ == token@,
            t@.take(i as int) == w@.take(i as int),
        decreases t.len() - i,
    {
        if t[i] != w[i] {
            assert(t@[i as int] != w@[i as int]);
            return false;
        }
        assert(t@.take(i + 1) =~= t@.take(i as int).push(t@[i as int]));
        assert(w@.take(i + 1) =~= w@.take(i as int).push(w@[i as int]));
        i = i + 1;
    }
    assert(t@.take(t.len() as int) =~= t@);
    assert(w@.take(w.len() as int) =~= w@);
    true
}

/// Reads the connection's declaration: `WATCH` or `PLAY`.
pub fn parse_greeting(token: &str) -> (r: Greeting)
    ensures
        r == if token@ == watch_word() {
            Greeting::Watch
        } else if token@ == play_word() {
            Greeting::Play
        } else {
            Greeting::Other
        },
{
    let watch = vec!['W', 'A', 'T', 'C', 'H'];
    assert(watch@ =~= watch_word());
    let play = vec!['P', 'L', 'A', 'Y'];
    assert(play@ =~= play_word());
    if is_word_of(token, &watch) {
        Greeting::Watch
    } else if is_word_of(token, &play) {
        Greeting::Play
    } else {
        Greeting::Other
    }
}

/// A player's command word.
#[derive(Clone, Copy, Debug, PartialEq, Eq, Structural)]
pub enum CommandWord {
    /// `GO`, followed by the two coordinates of the target.
    Go,
    /// `EXIT`: the session ends.
    Exit,
    /// Anything else, which is answered with a rejection.
    Other,
}

pub fn parse_command(token: &str) -> (r: CommandWord)
    ensures
        r == if token@ == go_word() {
            CommandWord::Go
        } else if token@ == exit_word() {
            CommandWord::Exit
        } else {
            CommandWord::Other
        },
{
    let go = vec!['G', 'O'];
    assert(go@ =~= go_word());
    let exit = vec!['E', 'X', 'I', 'T'];
    assert(exit@ =~= exit_word());
    if is_word_of(token, &go) {
        CommandWord::Go
    } else if is_word_of(token, &exit) {
        CommandWord::Exit
    } else {
        CommandWord::Other
    }
}

/// Reads a target coordinate, as an `i32` is read from text.
pub fn parse_coordinate(token: &str) -> (r: Option<i32>)
    ensures
        match r {
            Some(v) => i32_of(token@) == Some(v as int),
            None => i32_of(token@) is None,
        },
{
    let t = chars_of(token);
    match parse_bounded(&t, i32::MIN as i128, i32::MAX as i128) {
        Some(v) => Some(v as i32),
        None => None,
    }
}

/// The snapshot a player receives: the state with that player moved to the front, encoded.
/// `None` while the player is not in the game yet.
pub fn snapshot_for(state: &mut GameState, login: &str) -> (r: Option<String>)
    ensures
        r is Some <==> has_named(old(state).players@, login@),
        r is Some ==> exists|i: int|
            is_first_named(old(state).players@, login@, i) && final(state).players@
                == old(state).players@.update(0, old(state).players@[i]).update(
                i,
                old(state).players@[0],
            ),
        r is None ==> final(state).players@ == old(state).players@,
        final(state).items == old(state).items,
        final(state).width == old(state).width,
        final(state).height == old(state).height,
        final(state).turn == old(state).turn,
        final(state).max_turns == old(state).max_turns,
        final(state).game_id == old(state).game_id,
        match r {
            Some(text) => {
                &&& text@ == encode_text(final(state)@)
                &&& final(state).players@[0].name@ == login@
            },
            None => final(state)@ == old(state)@,
        },
{
    if state.make_player_first(login) {
        proof {
            let i = choose|i: int|
                is_first_named(old(state).players@, login@, i) && state.players@
                    == old(state).players@.update(0, old(state).players@[i]).update(
                    i,
                    old(state).players@[0],
                );
            if i == 0 {
                assert(state.players@[0] == old(state).players@[0]);
            } else {
                assert(state.players@[0] == old(state).players@[i]);
            }
        }
        Some(state.to_string())
    } else {
        None
    }
}

/// The registrations that a credential file's tokens spell: `<login> <address> <password>`
/// per registration.
pub open spec fn credentials_of(toks: Seq<Seq<char>>) -> Seq<(Seq<char>, Seq<char>)> {
    Seq::new((toks.len() / 3) as nat, |i: int| (toks[3 * i], toks[3 * i + 2]))
}

impl PasswordTable {
    /// Reads a credential file: three tokens per registration, in order, so that a later
    /// registration of a login wins.
    #[verifier::rlimit(40)]
    pub fn from_text(text: &str) -> (r: Result<PasswordTable, DecodeError>)
        ensures
            ({
                let toks = tokens(text@);
                match r {
                    Ok(t) => toks.len() % 3 == 0 && t@ == credentials_of(toks),
                    Err(e) => {
                        &&& toks.len() % 3 != 0
                        &&& e.index == toks.len()
                        &&& e.kind == DecodeErrorKind::MissingToken
                    },
                }
            }),
    {
        let ghost toks = tokens(text@);
        let mut reader = TokenReader::new(text);
        let mut table = PasswordTable::new();
        assert(toks.skip(0) =~= toks);
        let mut k: usize = 0;
        loop
            invariant
                toks == tokens(text@),
                reader.wf(),
                reader.position() == 3 * k,
                3 * k <= toks.len(),
                reader.remaining() == toks.skip(3 * k),
                table@ == credentials_of(toks).take(k as int),
            decreases toks.len() - 3 * k,
        {
            proof {
                if 3 * k + 1 <= toks.len() {
                    assert(toks.skip(3 * k).drop_first() =~= toks.skip(3 * k + 1));
                    assert(toks.skip(3 * k)[0] == toks[3 * k as int]);
                }
                if 3 * k + 2 <= toks.len() {
                    assert(toks.skip(3 * k + 1).drop_first() =~= toks.skip(3 * k + 2));
                }
                if 3 * k + 3 <= toks.len() {
                    assert(toks.skip(3 * k + 2).drop_first() =~= toks.skip(3 * k + 3));
                    assert(toks.skip(3 * k + 2)[0] == toks[3 * k + 2]);
                }
            }
            let login = match reader.next() {
                Some(t) => t,
                None => {
                    assert((3 * k) % 3 == 0 && (3 * k) / 3 == k) by (nonlinear_arith);
                    assert(credentials_of(toks).take(k as int) =~= credentials_of(toks));
                    return Ok(table);
                },
            };
            match reader.next() {
                Some(_) => {},
                None => {
                    assert((3 * k + 1) % 3 == 1) by (nonlinear_arith);
                    return Err(
                        DecodeError { index: reader.tokens_read(), kind: DecodeErrorKind::MissingToken },
                    );
                },
            }
            let password = match reader.next() {
                Some(t) => t,
                None => {
                    assert((3 * k + 2) % 3 == 2) by (nonlinear_arith);
                    return Err(
                        DecodeError { index: reader.tokens_read(), kind: DecodeErrorKind::MissingToken },
                    );
                },
            };
            proof {
                assert((3 * k + 3) / 3 == k + 1) by (nonlinear_arith);
            }
            table.register(string_of(&login), string_of(&password));
            assert(table@ =~= credentials_of(toks).take(k + 1));
            k = k + 1;
        }
    }
}

} // verus!
