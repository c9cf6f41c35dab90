//! Unit identity: the static `Definition` of a unit, the ordered argument
//! set binding it, and the content-signed `InstanceId` / `Instance` records
//! that the cache, resolver and engine share.

use vstd::prelude::*;

use crate::error::Error;
use crate::text::{seq_views, spec_is_blank, spec_split, is_blank, split_char};

use crypto::digest::Digest;

verus! {

/// The shape of a unit on disk: a directly executable file, or a directory
/// whose entry point is an executable file named `unit` inside it.
#[derive(Clone, Copy, Debug, PartialEq, Eq, Structural)]
pub enum DefinitionType {
    Directory,
    Executable,
}

/// The static, unparameterized description of a unit: its name, where it
/// lives on disk, and its shape.  Loaded once per unit name and shared by
/// every instance of that unit.
#[derive(Debug)]
pub struct Definition {
    pub name: String,
    pub path: String,
    pub definition_type: DefinitionType,
}

impl Definition {
    pub fn new(name: &str, path: &str, definition_type: DefinitionType) -> (d: Definition)
        ensures
            d.name@ == name@,
            d.path@ == path@,
            d.definition_type == definition_type,
    {
        Definition { name: name.to_owned(), path: path.to_owned(), definition_type }
    }
}

/// One named argument of a unit instance.
#[derive(Clone, Debug)]
pub struct Argument {
    pub name: String,
    pub value: String,
}

/// An ordered sequence of named arguments; order-preserving, names need not
/// be unique.
#[derive(Clone, Debug)]
pub struct ArgSet {
    pub vec: Vec<Argument>,
}

/// The mathematical model of an argument list: the sequence of
/// (name, value) character-sequence pairs.
pub open spec fn spec_args(v: Seq<Argument>) -> Seq<(Seq<char>, Seq<char>)> {
    v.map_values(|a: Argument| (a.name@, a.value@))
}

/// Parsing a sequence of `key=value` pieces: blank pieces are skipped, every
/// other piece must contain exactly one `=`.  On failure the result carries
/// the first offending piece.
pub open spec fn spec_parse_pairs(ps: Seq<Seq<char>>) -> Result<
    Seq<(Seq<char>, Seq<char>)>,
    Seq<char>,
>
    decreases ps.len(),
{
    if ps.len() == 0 {
        Ok(Seq::empty())
    } else {
        let p = ps[0];
        if spec_is_blank(p) {
            spec_parse_pairs(ps.drop_first())
        } else {
            let kv = spec_split(p, '=');
            if kv.len() != 2 {
                Err(p)
            } else {
                match spec_parse_pairs(ps.drop_first()) {
                    Ok(rest) => Ok(seq![(kv[0], kv[1])] + rest),
                    Err(e) => Err(e),
                }
            }
        }
    }
}

/// Parsing a flat `key=value,key=value` argument string.
pub open spec fn spec_parse_args(s: Seq<char>) -> Result<
    Seq<(Seq<char>, Seq<char>)>,
    Seq<char>,
> {
    spec_parse_pairs(spec_split(s, ','))
}

/// The message reported for a malformed `key=value` piece.
pub open spec fn spec_args_error_msg(p: Seq<char>) -> Seq<char> {
    "Args parse error: "@ + p + " should be in form of key=value"@
}

/// Prepends already-parsed pairs to the outcome of parsing the remaining
/// pieces; an error from the remainder wins.
pub open spec fn spec_parse_continue(
    acc: Seq<(Seq<char>, Seq<char>)>,
    r: Result<Seq<(Seq<char>, Seq<char>)>, Seq<char>>,
) -> Result<Seq<(Seq<char>, Seq<char>)>, Seq<char>> {
    match r {
        Ok(rest) => Ok(acc + rest),
        Err(p) => Err(p),
    }
}

impl ArgSet {
    pub fn new() -> (a: ArgSet)
        ensures
            a.vec@.len() == 0,
    {
        ArgSet { vec: Vec::new() }
    }

    /// Parses `key=value,key=value`.  The empty string (and any blank
    /// piece) contributes nothing; a piece without exactly one `=` is an
    /// error naming that piece.
    pub fn parse(args_str: &str) -> (r: Result<ArgSet, Error>)
        ensures
            match r {
                Ok(a) => spec_parse_args(args_str@) == Ok::<_, Seq<char>>(spec_args(a.vec@)),
                Err(e) => {
                    &&& spec_parse_args(args_str@) is Err
                    &&& e.msg@ == spec_args_error_msg(spec_parse_args(args_str@)->Err_0)
                },
            },
    {
        let pieces = split_char(args_str, ',');
        let n = pieces.len();
        let ghost ps = seq_views(pieces@);
        let mut vec: Vec<Argument> = Vec::new();
        let mut i: usize = 0;
        proof {
            assert(ps.skip(0) =~= ps);
            assert(spec_args(vec@) =~= Seq::<(Seq<char>, Seq<char>)>::empty());
            if spec_parse_pairs(ps) is Ok {
                let all = spec_parse_pairs(ps)->Ok_0;
                assert(Seq::<(Seq<char>, Seq<char>)>::empty() + all =~= all);
            }
        }
        while i < n
            invariant
                i <= n,
                n == pieces@.len(),
                ps == seq_views(pieces@),
                ps == spec_split(args_str@, ','),
                spec_parse_pairs(ps) == spec_parse_continue(
                    spec_args(vec@),
                    spec_parse_pairs(ps.skip(i as int)),
                ),
            decreases n - i,
        {
            proof {
                assert(ps.skip(i as int)[0] == pieces@[i as int]@);
                assert(ps.skip(i as int).drop_first() =~= ps.skip(i + 1));
            }
            let piece = &pieces[i];
            if !is_blank(piece.as_str()) {
                let mut kv = split_char(piece.as_str(), '=');
                if kv.len() != 2 {
                    proof {
                        assert(seq_views(kv@).len() == kv@.len());
                        assert(spec_split(ps.skip(i as int)[0], '=').len() != 2);
                        assert(spec_parse_pairs(ps.skip(i as int)) == Err::<
                            Seq<(Seq<char>, Seq<char>)>,
                            _,
                        >(pieces@[i as int]@));
                    }
                    let mut msg = String::from_str("Args parse error: ");
                    msg.append(piece.as_str());
                    msg.append(" should be in form of key=value");
                    return Err(Error::new(msg));
                }
                let value = kv.pop().unwrap();
                let name = kv.pop().unwrap();
                let ghost old_vec = vec@;
                proof {
                    assert(seq_views(kv@).push(name@).push(value@) =~= spec_split(
                        pieces@[i as int]@,
                        '=',
                    ));
                }
                vec.push(Argument { name, value });
                proof {
                    let kvs = spec_split(pieces@[i as int]@, '=');
                    assert(kvs[0] == name@ && kvs[1] == value@);
                    assert(spec_args(vec@) =~= spec_args(old_vec).push((name@, value@)));
                    if spec_parse_pairs(ps.skip(i + 1)) is Ok {
                        let rest = spec_parse_pairs(ps.skip(i + 1))->Ok_0;
                        assert(spec_parse_pairs(ps.skip(i as int)) == Ok::<_, Seq<char>>(
                            seq![(name@, value@)] + rest,
                        ));
                        assert(spec_args(old_vec) + (seq![(name@, value@)] + rest) =~= spec_args(
                            vec@,
                        ) + rest);
                    }
                }
            }
            i = i + 1;
        }
        proof {
            assert(ps.skip(n as int) =~= Seq::<Seq<char>>::empty());
            assert(spec_parse_pairs(ps.skip(n as int)) == Ok::<_, Seq<char>>(
                Seq::<(Seq<char>, Seq<char>)>::empty(),
            ));
            assert(spec_args(vec@) + Seq::<(Seq<char>, Seq<char>)>::empty() =~= spec_args(vec@));
        }
        Ok(ArgSet { vec })
    }

    /// The hex SHA-1 digest of the arguments' names and values, concatenated
    /// in sequence order.
    pub fn sha1(&self) -> (r: String)
        ensures
            r@ == sha1_hex_of(spec_arg_concat(spec_args(self.vec@))),
            r@.len() == 40,
    {
        let mut input = String::new();
        let n = self.vec.len();
        let mut i: usize = 0;
        proof {
            assert(spec_args(self.vec@).skip(0) =~= spec_args(self.vec@));
        }
        while i < n
            invariant
                i <= n,
                n == self.vec@.len(),
                spec_arg_concat(spec_args(self.vec@)) == input@ + spec_arg_concat(
                    spec_args(self.vec@).skip(i as int),
                ),
            decreases n - i,
        {
            let ghost old_input = input@;
            let ghost pairs = spec_args(self.vec@);
            input.append(self.vec[i].name.as_str());
            input.append(self.vec[i].value.as_str());
            proof {
                assert(pairs.skip(i as int)[0] == pairs[i as int]);
                assert(pairs.skip(i as int).drop_first() =~= pairs.skip(i + 1));
                assert(old_input + (pairs[i as int].0 + pairs[i as int].1 + spec_arg_concat(
                    pairs.skip(i + 1),
                )) =~= input@ + spec_arg_concat(pairs.skip(i + 1)));
            }
            i = i + 1;
        }
        proof {
            assert(spec_args(self.vec@).skip(n as int) =~= Seq::<(Seq<char>, Seq<char>)>::empty());
            assert(input@ + Seq::<char>::empty() =~= input@);
        }
        sha1_hex(input.as_str())
    }
}

/// The concatenation of all argument names and values, in sequence order:
/// the text the content signature digests.
pub open spec fn spec_arg_concat(pairs: Seq<(Seq<char>, Seq<char>)>) -> Seq<char>
    decreases pairs.len(),
{
    if pairs.len() == 0 {
        Seq::empty()
    } else {
        pairs[0].0 + pairs[0].1 + spec_arg_concat(pairs.drop_first())
    }
}

/// The hex SHA-1 digest of a text: a function of the fed characters alone.
pub uninterp spec fn sha1_hex_of(input: Seq<char>) -> Seq<char>;

/// Relies on crypto::sha1::Sha1 through crypto::digest::Digest: `input_str`
/// digests exactly the bytes of the fed text, and `result_str` renders the
/// 160-bit SHA-1 state as 40 lower-case hex characters, a function of the
/// fed text alone.
#[verifier::external_body]
fn sha1_hex(input: &str) -> (r: String)
    ensures
        r@ == sha1_hex_of(input@),
        r@.len() == 40,
{
    let mut hasher = crypto::sha1::Sha1::new();
    hasher.input_str(input);
    hasher.result_str()
}

/// A concrete parameterized request for a unit: its name plus an ordered
/// argument set.  Its signature is the cache key and cross-run identity of
/// this exact unit invocation.
#[derive(Debug)]
pub struct InstanceId {
    pub name: String,
    pub args: ArgSet,
}

/// The content signature of an instance request:
/// `{name}-{hex SHA-1 of the concatenated argument names and values}`.
pub open spec fn spec_signature(name: Seq<char>, pairs: Seq<(Seq<char>, Seq<char>)>) -> Seq<
    char,
> {
    name + "-"@ + sha1_hex_of(spec_arg_concat(pairs))
}

impl InstanceId {
    /// Parses the argument string and binds it to the unit name.
    pub fn build(name: &str, args_str: &str) -> (r: Result<InstanceId, Error>)
        ensures
            match r {
                Ok(id) => {
                    &&& id.name@ == name@
                    &&& spec_parse_args(args_str@) == Ok::<_, Seq<char>>(spec_args(id.args.vec@))
                },
                Err(e) => {
                    &&& spec_parse_args(args_str@) is Err
                    &&& e.msg@ == spec_args_error_msg(spec_parse_args(args_str@)->Err_0)
                },
            },
    {
        let args = ArgSet::parse(args_str)?;
        Ok(InstanceId { name: name.to_owned(), args })
    }

    pub fn new(name: String, args: ArgSet) -> (id: InstanceId)
        ensures
            id.name == name,
            id.args == args,
    {
        InstanceId { name, args }
    }

    pub fn signature(&self) -> (r: String)
        ensures
            r@ == spec_signature(self.name@, spec_args(self.args.vec@)),
    {
        let mut r = String::new();
        r.append(self.name.as_str());
        r.append("-");
        let digest = self.args.sha1();
        r.append(digest.as_str());
        r
    }
}

/// Two instance requests whose unit names and argument texts agree
/// character for character always produce the same signature.
pub proof fn lemma_signature_deterministic(a: InstanceId, b: InstanceId)
    requires
        a.name@ == b.name@,
        spec_args(a.args.vec@) == spec_args(b.args.vec@),
    ensures
        spec_signature(a.name@, spec_args(a.args.vec@)) == spec_signature(
            b.name@,
            spec_args(b.args.vec@),
        ),
{
}

/// The traversal marker of the resolver's three-color depth-first search.
#[derive(Clone, Copy, Debug, PartialEq, Eq, Structural)]
pub enum RunState {
    Init,
    Resolving,
    Resolved,
}

/// What a `check` run found out about an instance.
#[derive(Clone, Debug)]
pub enum ApplicationState {
    Unknown,
    Applied,
    NotApplied(String),
}

/// A definition bound to concrete arguments: the unit of resolution,
/// caching and execution.  Created once per distinct signature by the
/// instance cache; the resolver drives `run_state`, the engine
/// `application_state`.  The `definition` field indexes the cache's
/// definition store.
#[derive(Debug)]
pub struct Instance {
    pub definition: usize,
    pub id: InstanceId,
    pub run_state: RunState,
    pub application_state: ApplicationState,
}

impl Instance {
    pub fn new(definition: usize, instance_id: InstanceId) -> (inst: Instance)
        ensures
            inst.definition == definition,
            inst.id == instance_id,
            inst.run_state == RunState::Init,
            inst.application_state is Unknown,
    {
        Instance {
            definition,
            id: instance_id,
            run_state: RunState::Init,
            application_state: ApplicationState::Unknown,
        }
    }
}

/// The signature of an instance, as the cache models it.
pub open spec fn spec_instance_signature(inst: Instance) -> Seq<char> {
    spec_signature(inst.id.name@, spec_args(inst.id.args.vec@))
}

} // verus!
