//! Protocol commands and responses, with their mathematical models.

use vstd::prelude::*;

verus! {

/// The storage instruction carried by a `set`-family command line.
/// The text parser only ever produces the plain store instruction.
#[derive(Clone, Copy, Debug, PartialEq, Eq, Structural)]
pub enum SetInstr {
    Store,
}

/// A `get <key>` request.
#[derive(Clone, Debug, PartialEq, Eq)]
pub struct Get {
    pub key: String,
}

/// A `set <key> <flags> <exptime> <bytelen> [noreply]` request together with
/// its binary payload.
#[derive(Clone, Debug, PartialEq, Eq)]
pub struct SetCmd {
    pub instr: SetInstr,
    pub key: String,
    pub flags: u16,
    pub exptime: u32,
    pub data: Vec<u8>,
    pub noreply: bool,
}

/// One fully parsed protocol command.
#[derive(Clone, Debug, PartialEq, Eq)]
pub enum Cmd {
    Get(Get),
    SetCmd(SetCmd),
    Stats,
}

/// The model of a command: strings as character sequences, payloads as byte
/// sequences.
pub enum CmdModel {
    Get { key: Seq<char> },
    SetCmd { instr: SetInstr, key: Seq<char>, flags: u16, exptime: u32, data: Seq<u8>, noreply: bool },
    Stats,
}

impl View for Get {
    type V = Seq<char>;

    open spec fn view(&self) -> Seq<char> {
        self.key@
    }
}

impl View for Cmd {
    type V = CmdModel;

    open spec fn view(&self) -> CmdModel {
        match self {
            Cmd::Get(g) => CmdModel::Get { key: g.key@ },
            Cmd::SetCmd(s) => CmdModel::SetCmd {
                instr: s.instr,
                key: s.key@,
                flags: s.flags,
                exptime: s.exptime,
                data: s.data@,
                noreply: s.noreply,
            },
            Cmd::Stats => CmdModel::Stats,
        }
    }
}

impl Get {
    /// A `get` request for the given key.
    pub fn new(key: &str) -> (r: Get)
        ensures
            r.key@ == key@,
    {
        Get { key: key.to_owned() }
    }
}

impl SetCmd {
    /// A plain `set` request: flags zero, no `noreply` marker.
    pub fn new(key: &str, exptime: u32, data: Vec<u8>) -> (r: SetCmd)
        ensures
            r.instr == SetInstr::Store,
            r.key@ == key@,
            r.flags == 0,
            r.exptime == exptime,
            r.data == data,
            r.noreply == false,
    {
        SetCmd { instr: SetInstr::Store, key: key.to_owned(), flags: 0, exptime, data, noreply: false }
    }
}

/// One entry of a `stats` response: a key/value pair of display strings.
#[derive(Clone, Debug, PartialEq, Eq)]
pub struct Stat {
    pub key: String,
    pub value: String,
}

impl Stat {
    pub fn new(key: &str, value: &str) -> (r: Stat)
        ensures
            r.key@ == key@,
            r.value@ == value@,
    {
        Stat { key: key.to_owned(), value: value.to_owned() }
    }
}

/// A `VALUE` response body: one stored item handed back to a `get`.
#[derive(Clone, Debug, PartialEq, Eq)]
pub struct Value {
    pub key: String,
    pub flags: u16,
    pub data: Vec<u8>,
}

impl Value {
    pub fn new(key: &str, flags: u16, data: Vec<u8>) -> (r: Value)
        ensures
            r.key@ == key@,
            r.flags == flags,
            r.data == data,
    {
        Value { key: key.to_owned(), flags, data }
    }
}

/// One protocol response to be serialized onto the wire.
#[derive(Clone, Debug, PartialEq, Eq)]
pub enum Resp {
    Empty,
    Error,
    Stats(Vec<Stat>),
    Stored,
    Value(Value),
}

/// The model of a response.
pub enum RespModel {
    Empty,
    Error,
    Stats { entries: Seq<(Seq<char>, Seq<char>)> },
    Stored,
    Value { key: Seq<char>, flags: u16, data: Seq<u8> },
}

impl View for Resp {
    type V = RespModel;

    open spec fn view(&self) -> RespModel {
        match self {
            Resp::Empty => RespModel::Empty,
            Resp::Error => RespModel::Error,
            Resp::Stats(entries) => RespModel::Stats {
                entries: entries@.map(|i: int, s: Stat| (s.key@, s.value@)),
            },
            Resp::Stored => RespModel::Stored,
            Resp::Value(v) => RespModel::Value { key: v.key@, flags: v.flags, data: v.data@ },
        }
    }
}

} // verus!
