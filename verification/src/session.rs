//! The session state machine: the process-wide holder of zero-or-one
//! loaded range index, and the line-based command protocol (`LOAD`,
//! `LOOKUP <address>`, `EXIT`) served against it, one command in, one
//! reply out.

use vstd::prelude::*;

use crate::addr::{parse_ipv4, parse_ipv4_spec};
use crate::index::{Payload, PayloadModel, RangeIndex, lookup_spec};
use crate::record::{GeoRangeModel, parsed_records};
use crate::text::{tokenize, tokens_spec, copy_bytes, COMMA};

verus! {

/// A parsed command line. `Invalid` covers every line the protocol
/// rejects: an unknown word, wrong arity, or a `LOOKUP` argument that
/// is no dotted-quad IPv4 literal.
#[derive(Debug, PartialEq, Eq, Clone, Copy)]
pub enum Command {
    Load,
    Lookup(u32),
    Exit,
    Invalid,
}

/// What a lookup answers. `NoDatabase` (no successful load yet) and
/// `NotFound` (no loaded range contains the address) both surface as
/// the protocol's `ERR`, but the engine keeps them apart.
#[derive(Debug)]
pub enum LookupOutcome {
    NoDatabase,
    NotFound,
    Located(Payload),
}

/// The mathematical model of a lookup's answer.
pub enum LookupOutcomeModel {
    NoDatabase,
    NotFound,
    Located(PayloadModel),
}

impl View for LookupOutcome {
    type V = LookupOutcomeModel;

    open spec fn view(&self) -> LookupOutcomeModel {
        match self {
            LookupOutcome::NoDatabase => LookupOutcomeModel::NoDatabase,
            LookupOutcome::NotFound => LookupOutcomeModel::NotFound,
            LookupOutcome::Located(p) => LookupOutcomeModel::Located(p@),
        }
    }
}

/// The session: zero-or-one current index. Mutated only by `load`,
/// read only by `lookup`.
pub struct Session {
    pub index: Option<RangeIndex>,
}

impl View for Session {
    type V = Option<Seq<GeoRangeModel>>;

    open spec fn view(&self) -> Option<Seq<GeoRangeModel>> {
        match self.index {
            Option::Some(ix) => Option::Some(ix@),
            Option::None => Option::None,
        }
    }
}

/// The state a load leaves behind: a readable source replaces the index
/// with exactly its accepted rows; an unreadable one (`None`) leaves
/// the state untouched.
pub open spec fn load_transition(
    st: Option<Seq<GeoRangeModel>>,
    source: Option<Seq<Seq<u8>>>,
) -> Option<Seq<GeoRangeModel>> {
    match source {
        Option::Some(lines) => Option::Some(parsed_records(lines)),
        Option::None => st,
    }
}

/// What a lookup answers in a given state: the no-database signal
/// before any successful load, otherwise the index's answer.
pub open spec fn lookup_answer(st: Option<Seq<GeoRangeModel>>, addr: u32) -> LookupOutcomeModel {
    match st {
        Option::None => LookupOutcomeModel::NoDatabase,
        Option::Some(records) => match lookup_spec(records, addr) {
            Option::Some(p) => LookupOutcomeModel::Located(p),
            Option::None => LookupOutcomeModel::NotFound,
        },
    }
}

impl Session {
    /// A fresh session: nothing loaded.
    pub fn new() -> (s: Session)
        ensures
            s@ is None,
    {
        Session { index: Option::None }
    }

    /// Handles `LOAD`, given the source rows the caller read (`None`
    /// when the source was unreadable). Succeeds exactly on a readable
    /// source - malformed rows are skipped, never fatal - and a failure
    /// leaves the previous state, loaded or not, untouched.
    pub fn load(&mut self, source: Option<&Vec<Vec<u8>>>) -> (ok: bool)
        ensures
            ok == source is Some,
            final(self)@ == load_transition(
                old(self)@,
                match source {
                    Option::Some(lines) => Option::Some(lines.deep_view()),
                    Option::None => Option::None,
                },
            ),
    {
        match source {
            Option::Some(lines) => {
                let ix = RangeIndex::build(lines);
                self.index = Option::Some(ix);
                true
            },
            Option::None => false,
        }
    }

    /// Handles `LOOKUP` for an already-parsed address, as
    /// `lookup_answer` describes.
    pub fn lookup(&self, addr: u32) -> (r: LookupOutcome)
        ensures
            r@ == lookup_answer(self@, addr),
    {
        match &self.index {
            Option::Some(ix) => match ix.lookup(addr) {
                Option::Some(p) => LookupOutcome::Located(p),
                Option::None => LookupOutcome::NotFound,
            },
            Option::None => LookupOutcome::NoDatabase,
        }
    }
}

impl Session {
    /// One step of the command loop: the reply line for one parsed
    /// command, and whether the session keeps serving. `LOAD` consumes
    /// the rows the caller read fresh from the backing source (`None`
    /// when it was unreadable) and is the only command that changes the
    /// state; `EXIT` is acknowledged with `OK` and ends the loop; an
    /// invalid line is answered `ERR` and changes nothing.
    pub fn step(&mut self, cmd: &Command, load_source: Option<&Vec<Vec<u8>>>) -> (r: (
        Vec<u8>,
        bool,
    ))
        ensures
            (match *cmd {
                Command::Load => {
                    &&& final(self)@ == load_transition(
                        old(self)@,
                        match load_source {
                            Option::Some(lines) => Option::Some(lines.deep_view()),
                            Option::None => Option::None,
                        },
                    )
                    &&& r.0@ == (if load_source is Some {
                        ok_line()
                    } else {
                        err_line()
                    })
                    &&& r.1
                },
                Command::Lookup(addr) => {
                    &&& final(self)@ == old(self)@
                    &&& r.0@ == (match lookup_answer(old(self)@, addr) {
                        LookupOutcomeModel::Located(p) => p.country_code + seq![COMMA] + p.city,
                        LookupOutcomeModel::NotFound => err_line(),
                        LookupOutcomeModel::NoDatabase => err_line(),
                    })
                    &&& r.1
                },
                Command::Exit => {
                    &&& final(self)@ == old(self)@
                    &&& r.0@ == ok_line()
                    &&& !r.1
                },
                Command::Invalid => {
                    &&& final(self)@ == old(self)@
                    &&& r.0@ == err_line()
                    &&& r.1
                },
            }),
    {
        match cmd {
            Command::Load => {
                let ok = self.load(load_source);
                (status_reply(ok), true)
            },
            Command::Lookup(addr) => (lookup_reply(&self.lookup(*addr)), true),
            Command::Exit => (status_reply(true), false),
            Command::Invalid => (status_reply(false), true),
        }
    }
}

/// The word `LOAD`.
pub open spec fn load_word() -> Seq<u8> {
    seq![76u8, 79u8, 65u8, 68u8]
}

/// The word `LOOKUP`.
pub open spec fn lookup_word() -> Seq<u8> {
    seq![76u8, 79u8, 79u8, 75u8, 85u8, 80u8]
}

/// The word `EXIT`.
pub open spec fn exit_word() -> Seq<u8> {
    seq![69u8, 88u8, 73u8, 84u8]
}

fn is_load_word(t: &Vec<u8>) -> (r: bool)
    ensures
        r <==> t@ == load_word(),
{
    let r = t.len() == 4 && t[0] == 76 && t[1] == 79 && t[2] == 65 && t[3] == 68;
    proof {
        if r {
            assert(t@ =~= load_word());
        }
    }
    r
}

fn is_lookup_word(t: &Vec<u8>) -> (r: bool)
    ensures
        r <==> t@ == lookup_word(),
{
    let r = t.len() == 6 && t[0] == 76 && t[1] == 79 && t[2] == 79 && t[3] == 75 && t[4] == 85
        && t[5] == 80;
    proof {
        if r {
            assert(t@ =~= lookup_word());
        }
    }
    r
}

fn is_exit_word(t: &Vec<u8>) -> (r: bool)
    ensures
        r <==> t@ == exit_word(),
{
    let r = t.len() == 4 && t[0] == 69 && t[1] == 88 && t[2] == 73 && t[3] == 84;
    proof {
        if r {
            assert(t@ =~= exit_word());
        }
    }
    r
}

/// The command a line denotes: its whitespace-separated words must be
/// exactly `LOAD`, `EXIT`, or `LOOKUP` with one argument that reads as
/// a dotted-quad IPv4 literal; every other line is `Invalid`.
pub open spec fn parse_command_spec(line: Seq<u8>) -> Command {
    let words = tokens_spec(line);
    if words.len() == 1 && words[0] == load_word() {
        Command::Load
    } else if words.len() == 1 && words[0] == exit_word() {
        Command::Exit
    } else if words.len() == 2 && words[0] == lookup_word() {
        match parse_ipv4_spec(words[1]) {
            Option::Some(addr) => Command::Lookup(addr),
            Option::None => Command::Invalid,
        }
    } else {
        Command::Invalid
    }
}

/// Parses one command line, as `parse_command_spec` describes.
pub fn parse_command(line: &Vec<u8>) -> (c: Command)
    ensures
        c == parse_command_spec(line@),
{
    let words = tokenize(line);
    proof {
        assert(forall|k: int| 0 <= k < words@.len() ==> words.deep_view()[k] == words@[k]@);
    }
    if words.len() == 1 {
        if is_load_word(&words[0]) {
            Command::Load
        } else if is_exit_word(&words[0]) {
            Command::Exit
        } else {
            Command::Invalid
        }
    } else if words.len() == 2 {
        if is_lookup_word(&words[0]) {
            match parse_ipv4(&words[1]) {
                Option::Some(addr) => Command::Lookup(addr),
                Option::None => Command::Invalid,
            }
        } else {
            Command::Invalid
        }
    } else {
        Command::Invalid
    }
}

/// The protocol's success line for a found payload: the country code,
/// a comma, the city.
pub fn render_payload(p: &Payload) -> (r: Vec<u8>)
    ensures
        r@ == p@.country_code + seq![COMMA] + p@.city,
{
    let mut r = copy_bytes(&p.country_code);
    r.push(COMMA);
    proof {
        assert(r@ =~= p@.country_code + seq![COMMA]);
    }
    let mut i: usize = 0;
    while i < p.city.len()
        invariant
            i <= p.city@.len(),
            r@ == p@.country_code + seq![COMMA] + p.city@.subrange(0, i as int),
        decreases p.city@.len() - i,
    {
        let ghost prev = r@;
        r.push(p.city[i]);
        proof {
            assert(prev.push(p.city@[i as int]) =~= p@.country_code + seq![COMMA]
                + p.city@.subrange(0, i + 1));
        }
        i = i + 1;
    }
    proof {
        assert(p.city@.subrange(0, p.city@.len() as int) =~= p.city@);
    }
    r
}

/// The protocol's success token, `OK`.
pub open spec fn ok_line() -> Seq<u8> {
    seq![79u8, 75u8]
}

/// The protocol's single error token, `ERR`.
pub open spec fn err_line() -> Seq<u8> {
    seq![69u8, 82u8, 82u8]
}

/// The status line a command is acknowledged with: `OK` on success - a
/// completed load, the exit acknowledgment - and `ERR` otherwise.
pub fn status_reply(ok: bool) -> (r: Vec<u8>)
    ensures
        r@ == (if ok {
            ok_line()
        } else {
            err_line()
        }),
{
    let mut r: Vec<u8> = Vec::new();
    if ok {
        r.push(79);
        r.push(75);
        proof {
            assert(r@ =~= ok_line());
        }
    } else {
        r.push(69);
        r.push(82);
        r.push(82);
        proof {
            assert(r@ =~= err_line());
        }
    }
    r
}

/// The response line for a lookup: `<countryCode>,<city>` for a found
/// payload, while the error kinds - no database loaded, address not
/// found - both collapse to the `ERR` token on the wire.
pub fn lookup_reply(outcome: &LookupOutcome) -> (r: Vec<u8>)
    ensures
        r@ == (match outcome@ {
            LookupOutcomeModel::Located(p) => p.country_code + seq![COMMA] + p.city,
            LookupOutcomeModel::NotFound => err_line(),
            LookupOutcomeModel::NoDatabase => err_line(),
        }),
{
    match outcome {
        LookupOutcome::Located(p) => render_payload(p),
        LookupOutcome::NotFound => status_reply(false),
        LookupOutcome::NoDatabase => status_reply(false),
    }
}

/// A lookup before any successful load answers the no-database error,
/// whatever the address; and a failed load does not leave the initial
/// state, so the answer stays that error until a load succeeds.
pub proof fn lemma_lookup_before_load(addr: u32)
    ensures
        lookup_answer(Option::None, addr) == LookupOutcomeModel::NoDatabase,
        load_transition(Option::None, Option::None) == Option::<Seq<GeoRangeModel>>::None,
{
}

/// A failed load (unreadable source) leaves the state, and with it
/// every lookup answer, exactly as it was.
pub proof fn lemma_failed_load_preserves(st: Option<Seq<GeoRangeModel>>, addr: u32)
    ensures
        load_transition(st, Option::None) == st,
        lookup_answer(load_transition(st, Option::None), addr) == lookup_answer(st, addr),
{
}

/// Loading is idempotent: running `LOAD` again over an unchanged source
/// rebuilds the same records, so every lookup answers as before.
pub proof fn lemma_load_idempotent(
    st: Option<Seq<GeoRangeModel>>,
    lines: Seq<Seq<u8>>,
    addr: u32,
)
    ensures
        load_transition(load_transition(st, Option::Some(lines)), Option::Some(lines))
            == load_transition(st, Option::Some(lines)),
        lookup_answer(
            load_transition(load_transition(st, Option::Some(lines)), Option::Some(lines)),
            addr,
        ) == lookup_answer(load_transition(st, Option::Some(lines)), addr),
{
}

} // verus!
