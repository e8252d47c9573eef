use vstd::prelude::*;
use vstd::slice::slice_to_vec;
use vstd::utf8::encode_utf8;
use crate::types::{Agent, LocalVersion, RemoteVersion, ROOT_AGENT};

verus! {

/// The agent string reserved for the root operation.
pub const ROOT_AGENT_STR: &'static str = "ROOT";

pub open spec fn root_agent_name() -> Seq<char> {
    seq!['R', 'O', 'O', 'T']
}

/// Two-way table between agent strings and dense local agent ids. The id of
/// a string is its position in the table: ids follow the order of insertion.
#[derive(Debug)]
pub struct AgentMap {
    local_to_remote: Vec<String>,
}

impl Default for AgentMap {
    fn default() -> (r: AgentMap)
        ensures
            r@ == Seq::<Seq<char>>::empty(),
            r.wf(),
    {
        AgentMap::new()
    }
}

/// A table of agent names is well formed when its names are distinct, none is
/// the reserved root name, and every id stays below the root agent's id.
pub open spec fn agent_names_wf(names: Seq<Seq<char>>) -> bool {
    &&& names.len() < ROOT_AGENT
    &&& forall|i: int, j: int|
        0 <= i < names.len() && 0 <= j < names.len() && i != j ==> names[i] != names[j]
    &&& forall|i: int| 0 <= i < names.len() ==> names[i] != root_agent_name()
}

/// Whether `s` names a known agent (the root name always does).
pub open spec fn agent_known(names: Seq<Seq<char>>, s: Seq<char>) -> bool {
    s == root_agent_name() || names.contains(s)
}

/// The local id of `s`, for a string that `agent_known` accepts.
pub open spec fn agent_id_of(names: Seq<Seq<char>>, s: Seq<char>) -> Agent {
    if s == root_agent_name() {
        ROOT_AGENT
    } else {
        names.index_of(s) as Agent
    }
}

/// The string of local id `a`.
pub open spec fn agent_name_of(names: Seq<Seq<char>>, a: Agent) -> Seq<char> {
    if a == ROOT_AGENT {
        root_agent_name()
    } else {
        names[a as int]
    }
}

/// Whether `a` is an id that the table can translate back.
pub open spec fn agent_id_valid(names: Seq<Seq<char>>, a: Agent) -> bool {
    a == ROOT_AGENT || a < names.len()
}

/// The table after interning `s`: unchanged for a known string, else `s`
/// appended.
pub open spec fn names_after_intern(names: Seq<Seq<char>>, s: Seq<char>) -> Seq<Seq<char>> {
    if agent_known(names, s) {
        names
    } else {
        names.push(s)
    }
}

impl View for AgentMap {
    type V = Seq<Seq<char>>;

    closed spec fn view(&self) -> Seq<Seq<char>> {
        self.local_to_remote@.map_values(|s: String| s@)
    }
}

pub fn is_root_agent(ext: &String) -> (r: bool)
    ensures
        r == (ext@ == root_agent_name()),
{
    let root = ROOT_AGENT_STR.to_string();
    proof {
        reveal_strlit("ROOT");
        assert(root@ =~= root_agent_name());
    }
    *ext == root
}

impl AgentMap {
    pub fn new() -> (r: AgentMap)
        ensures
            r@ == Seq::<Seq<char>>::empty(),
            r.wf(),
    {
        let r = AgentMap { local_to_remote: Vec::new() };
        assert(r@ =~= Seq::<Seq<char>>::empty());
        r
    }

    pub open spec fn wf(&self) -> bool {
        agent_names_wf(self@)
    }

    /// The number of agents interned.
    pub fn len(&self) -> (r: usize)
        ensures
            r == self@.len(),
    {
        self.local_to_remote.len()
    }

    /// Position of `ext` in the table, if it is there.
    fn find(&self, ext: &String) -> (r: Option<usize>)
        ensures
            match r {
                Some(i) => i < self@.len() && self@[i as int] == ext@,
                Option::None => !self@.contains(ext@),
            },
    {
        let mut i: usize = 0;
        while i < self.local_to_remote.len()
            invariant
                i <= self@.len(),
                self@.len() == self.local_to_remote@.len(),
                forall|j: int| 0 <= j < i ==> self@[j] != ext@,
            decreases self.local_to_remote@.len() - i,
        {
            if self.local_to_remote[i] == *ext {
                return Some(i);
            }
            i = i + 1;
        }
        Option::None
    }

    /// The id for `ext`, assigning the next id when the string is new. The
    /// root name maps to the root agent and is never inserted.
    pub fn to_local(&mut self, ext: &String) -> (r: Agent)
        requires
            old(self).wf(),
            agent_known(old(self)@, ext@) || old(self)@.len() + 1 < ROOT_AGENT,
        ensures
            final(self).wf(),
            final(self)@ == names_after_intern(old(self)@, ext@),
            r == agent_id_of(final(self)@, ext@),
            agent_known(final(self)@, ext@),
    {
        if is_root_agent(ext) {
            return ROOT_AGENT;
        }
        match self.find(ext) {
            Some(i) => {
                proof {
                    lemma_index_of_distinct(self@, i as int);
                }
                i as Agent
            },
            Option::None => {
                let id = self.local_to_remote.len() as Agent;
                let s = ext.clone();
                self.local_to_remote.push(s);
                proof {
                    let old_names = old(self)@;
                    assert(self@ =~= old_names.push(ext@));
                    lemma_index_of_distinct(self@, id as int);
                }
                id
            },
        }
    }

    /// The id for `ext` if it is known, without inserting.
    pub fn try_to_local(&self, ext: &String) -> (r: Option<Agent>)
        requires
            self.wf(),
        ensures
            r == (if agent_known(self@, ext@) {
                Some(agent_id_of(self@, ext@))
            } else {
                Option::<Agent>::None
            }),
    {
        if is_root_agent(ext) {
            return Some(ROOT_AGENT);
        }
        match self.find(ext) {
            Some(i) => {
                proof {
                    lemma_index_of_distinct(self@, i as int);
                }
                Some(i as Agent)
            },
            Option::None => Option::None,
        }
    }

    /// The string of id `agent`; the root agent maps to the root name.
    pub fn to_remote(&self, agent: Agent) -> (r: &str)
        requires
            agent_id_valid(self@, agent),
        ensures
            r@ == agent_name_of(self@, agent),
    {
        if agent == ROOT_AGENT {
            proof {
                reveal_strlit("ROOT");
            }
            assert(ROOT_AGENT_STR@ =~= root_agent_name());
            return ROOT_AGENT_STR;
        }
        self.local_to_remote[agent as usize].as_str()
    }
}

/// In a table of distinct names, the name at `i` is found at `i`.
pub proof fn lemma_index_of_distinct(names: Seq<Seq<char>>, i: int)
    requires
        0 <= i < names.len(),
        forall|a: int, b: int|
            0 <= a < names.len() && 0 <= b < names.len() && a != b ==> names[a] != names[b],
    ensures
        names.contains(names[i]),
        names.index_of(names[i]) == i,
{
    assert(names.contains(names[i]));
    let k = names.index_of(names[i]);
    assert(names[k] == names[i]);
}

/// Interning a string and translating the id back gives the string again,
/// for every string the table knows; and translating a valid id to its string
/// and interning that gives the id again.
pub proof fn lemma_agent_round_trip(names: Seq<Seq<char>>, s: Seq<char>, a: Agent)
    requires
        agent_names_wf(names),
    ensures
        agent_known(names, s) ==> agent_name_of(names, agent_id_of(names, s)) == s,
        agent_id_valid(names, a) ==> agent_known(names, agent_name_of(names, a))
            && agent_id_of(names, agent_name_of(names, a)) == a,
{
    if agent_known(names, s) && s != root_agent_name() {
        let k = names.index_of(s);
        assert(names[k] == s);
    }
    if agent_id_valid(names, a) && a != ROOT_AGENT {
        lemma_index_of_distinct(names, a as int);
    }
}

impl LocalVersion {
    /// The portable form of this version.
    pub fn to_remote(&self, agent_map: &AgentMap) -> (r: RemoteVersion)
        requires
            agent_id_valid(agent_map@, self.agent),
        ensures
            r.agent@ == agent_name_of(agent_map@, self.agent),
            r.seq == self.seq,
    {
        RemoteVersion { agent: agent_map.to_remote(self.agent).to_string(), seq: self.seq }
    }
}

/// Eight bytes of `x`, most significant first.
pub open spec fn be_bytes(x: u64) -> Seq<u8> {
    seq![
        (x >> 56u64) as u8,
        (x >> 48u64) as u8,
        (x >> 40u64) as u8,
        (x >> 32u64) as u8,
        (x >> 24u64) as u8,
        (x >> 16u64) as u8,
        (x >> 8u64) as u8,
        x as u8,
    ]
}

/// The bytes that identify a version on the wire: the agent's UTF-8 bytes,
/// then the sequence number as eight big-endian bytes.
pub open spec fn version_bytes(agent: Seq<char>, seq: u64) -> Seq<u8> {
    encode_utf8(agent) + be_bytes(seq)
}

/// The standard base64 text, with padding, of a byte string.
pub uninterp spec fn base64_of(b: Seq<u8>) -> Seq<char>;

/// Relies on base64::encode (standard alphabet, padded): the text depends on
/// the bytes alone. It panics only when the output length overflows `usize`,
/// which the bound on the input rules out.
#[verifier::external_body]
fn base64_encode(b: &Vec<u8>) -> (r: String)
    requires
        b@.len() <= usize::MAX / 2,
    ensures
        r@ == base64_of(b@),
{
    base64::encode(b)
}

impl RemoteVersion {
    /// The version as a lookup in `agent_map`, which is left unchanged.
    pub fn try_to_local(&self, agent_map: &AgentMap) -> (r: Option<LocalVersion>)
        requires
            agent_map.wf(),
        ensures
            r == (if agent_known(agent_map@, self.agent@) {
                Some(LocalVersion { agent: agent_id_of(agent_map@, self.agent@), seq: self.seq })
            } else {
                Option::<LocalVersion>::None
            }),
    {
        match agent_map.try_to_local(&self.agent) {
            Some(agent) => Some(LocalVersion { agent, seq: self.seq }),
            Option::None => Option::None,
        }
    }

    /// The version in local form, interning its agent.
    pub fn to_local_mut(&self, agent_map: &mut AgentMap) -> (r: LocalVersion)
        requires
            old(agent_map).wf(),
            agent_known(old(agent_map)@, self.agent@) || old(agent_map)@.len() + 1 < ROOT_AGENT,
        ensures
            final(agent_map).wf(),
            final(agent_map)@ == names_after_intern(old(agent_map)@, self.agent@),
            r == (LocalVersion { agent: agent_id_of(final(agent_map)@, self.agent@), seq: self.seq }),
    {
        LocalVersion { agent: agent_map.to_local(&self.agent), seq: self.seq }
    }

    /// The bytes of `version_bytes` for this version.
    pub fn to_bytes(&self) -> (r: Vec<u8>)
        ensures
            r@ == version_bytes(self.agent@, self.seq),
    {
        let mut buf = slice_to_vec(self.agent.as_str().as_bytes());
        let x = self.seq;
        buf.push(#[verifier::truncate] ((x >> 56u64) as u8));
        buf.push(#[verifier::truncate] ((x >> 48u64) as u8));
        buf.push(#[verifier::truncate] ((x >> 40u64) as u8));
        buf.push(#[verifier::truncate] ((x >> 32u64) as u8));
        buf.push(#[verifier::truncate] ((x >> 24u64) as u8));
        buf.push(#[verifier::truncate] ((x >> 16u64) as u8));
        buf.push(#[verifier::truncate] ((x >> 8u64) as u8));
        buf.push(#[verifier::truncate] (x as u8));
        assert(buf@ =~= version_bytes(self.agent@, self.seq));
        buf
    }

    /// The version as base64 of its `version_bytes`, as sent in headers.
    pub fn encode(&self) -> (r: String)
        requires
            version_bytes(self.agent@, self.seq).len() <= usize::MAX / 2,
        ensures
            r@ == base64_of(version_bytes(self.agent@, self.seq)),
    {
        let buf = self.to_bytes();
        base64_encode(&buf)
    }
}

} // verus!
