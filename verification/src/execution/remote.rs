//! The remote transport-and-execute protocol, as far as it is computation:
//! deterministic staging paths, permission masking for staged copies,
//! shell escaping of untrusted argument values, the remote command line,
//! and the per-session staging cache that keeps one transfer per instance
//! signature.  The network I/O around these runs outside the library and
//! consumes exactly these values.

use vstd::prelude::*;

use crate::text::{from_chars, str_eq, to_chars};
use crate::unit::{ArgSet, DefinitionType, spec_args};
use crate::operation::{Operation, spec_operation_name};

verus! {

/// The deterministic remote staging path of a unit.
pub open spec fn spec_remote_path(name: Seq<char>) -> Seq<char> {
    "/tmp/sysunit-"@ + name
}

/// Builds the remote staging path of a unit.
pub fn remote_path(name: &str) -> (r: String)
    ensures
        r@ == spec_remote_path(name@),
{
    let mut r = String::from_str("/tmp/sysunit-");
    r.append(name);
    r
}

/// The mode bits a staged copy keeps: the owner, group and other
/// permissions, with the set-uid, set-gid and sticky bits cleared.
pub open spec fn spec_staged_mode(mode: u32) -> u32 {
    mode & 0o777
}

/// Masks the mode of a staged copy.
pub fn staged_mode(mode: u32) -> (r: u32)
    ensures
        r == spec_staged_mode(mode),
{
    mode & 0o777
}

/// Characters that need no quoting in a shell word.
pub open spec fn is_shell_safe_char(c: char) -> bool {
    ||| 97 <= c as u32 && c as u32 <= 122
    ||| 65 <= c as u32 && c as u32 <= 90
    ||| 48 <= c as u32 && c as u32 <= 57
    ||| c == '-' || c == '_' || c == '=' || c == '/' || c == ',' || c == '.' || c == '+'
}

/// Executable mirror of [`is_shell_safe_char`].
pub fn is_shell_safe(c: char) -> (r: bool)
    ensures
        r == is_shell_safe_char(c),
{
    let u = c as u32;
    (97 <= u && u <= 122) || (65 <= u && u <= 90) || (48 <= u && u <= 57) || c == '-' || c == '_'
        || c == '=' || c == '/' || c == ',' || c == '.' || c == '+'
}

/// How one character is written inside a single-quoted shell word: a
/// quote or an exclamation mark closes the quote, stands escaped, and
/// reopens it.
pub open spec fn spec_escape_char(c: char) -> Seq<char> {
    if c == '\'' || c == '!' {
        seq!['\'', '\\', c, '\'']
    } else {
        seq![c]
    }
}

/// The inside of a single-quoted shell word.
pub open spec fn spec_quoted_inner(s: Seq<char>) -> Seq<char>
    decreases s.len(),
{
    if s.len() == 0 {
        Seq::empty()
    } else {
        spec_quoted_inner(s.drop_last()) + spec_escape_char(s.last())
    }
}

/// A string as a safe shell word: unchanged when non-empty and made of
/// safe characters only, otherwise single-quoted with quotes and
/// exclamation marks escaped.
pub open spec fn spec_shell_escape(s: Seq<char>) -> Seq<char> {
    if s.len() > 0 && (forall|i: int| 0 <= i < s.len() ==> is_shell_safe_char(s[i])) {
        s
    } else {
        seq!['\''] + spec_quoted_inner(s) + seq!['\'']
    }
}

/// Escapes one untrusted value for use in a shell command line.
pub fn shell_escape(s: &str) -> (r: String)
    ensures
        r@ == spec_shell_escape(s@),
{
    let chars = to_chars(s);
    let n = chars.len();
    let mut all_safe = n > 0;
    let mut i: usize = 0;
    while i < n
        invariant
            i <= n,
            n == chars@.len(),
            chars@ == s@,
            all_safe == (n > 0 && forall|j: int| 0 <= j < i ==> is_shell_safe_char(s@[j])),
        decreases n - i,
    {
        if !is_shell_safe(chars[i]) {
            all_safe = false;
        }
        i = i + 1;
    }
    if all_safe {
        let mut r = String::new();
        r.append(s);
        return r;
    }
    let mut out: Vec<char> = Vec::new();
    out.push('\'');
    let mut k: usize = 0;
    while k < n
        invariant
            k <= n,
            n == chars@.len(),
            chars@ == s@,
            out@ == seq!['\''] + spec_quoted_inner(s@.subrange(0, k as int)),
        decreases n - k,
    {
        let c = chars[k];
        proof {
            assert(s@.subrange(0, k + 1).drop_last() =~= s@.subrange(0, k as int));
            assert(s@.subrange(0, k + 1).last() == s@[k as int]);
        }
        if c == '\'' || c == '!' {
            out.push('\'');
            out.push('\\');
            out.push(c);
            out.push('\'');
        } else {
            out.push(c);
        }
        proof {
            assert(out@ =~= seq!['\''] + spec_quoted_inner(s@.subrange(0, k + 1)));
        }
        k = k + 1;
    }
    out.push('\'');
    proof {
        assert(s@.subrange(0, n as int) =~= s@);
        assert(out@ =~= seq!['\''] + spec_quoted_inner(s@) + seq!['\'']);
    }
    from_chars(&out)
}

/// One argument rendered as a shell environment assignment with its value
/// escaped.
pub open spec fn spec_env_assignment(name: Seq<char>, value: Seq<char>) -> Seq<char> {
    name + "="@ + spec_shell_escape(value)
}

/// All arguments rendered as space-separated environment assignments.
pub open spec fn spec_env_assignments(pairs: Seq<(Seq<char>, Seq<char>)>) -> Seq<char>
    decreases pairs.len(),
{
    if pairs.len() == 0 {
        Seq::empty()
    } else if pairs.len() == 1 {
        spec_env_assignment(pairs[0].0, pairs[0].1)
    } else {
        spec_env_assignments(pairs.drop_last()) + " "@ + spec_env_assignment(
            pairs.last().0,
            pairs.last().1,
        )
    }
}

/// Renders an argument set as shell-escaped environment assignments.
pub fn env_assignments(args: &ArgSet) -> (r: String)
    ensures
        r@ == spec_env_assignments(spec_args(args.vec@)),
{
    let mut r = String::new();
    let n = args.vec.len();
    let mut i: usize = 0;
    proof {
        assert(spec_args(args.vec@).subrange(0, 0) =~= Seq::<(Seq<char>, Seq<char>)>::empty());
    }
    while i < n
        invariant
            i <= n,
            n == args.vec@.len(),
            r@ == spec_env_assignments(spec_args(args.vec@).subrange(0, i as int)),
        decreases n - i,
    {
        let ghost pairs = spec_args(args.vec@);
        if i > 0 {
            r.append(" ");
        }
        r.append(args.vec[i].name.as_str());
        r.append("=");
        let escaped = shell_escape(args.vec[i].value.as_str());
        r.append(escaped.as_str());
        proof {
            assert(pairs.subrange(0, i + 1).drop_last() =~= pairs.subrange(0, i as int));
            assert(pairs.subrange(0, i + 1).last() == pairs[i as int]);
            assert(pairs[i as int] == (args.vec@[i as int].name@, args.vec@[i as int].value@));
            assert(r@ =~= spec_env_assignments(pairs.subrange(0, i + 1)));
        }
        i = i + 1;
    }
    proof {
        assert(spec_args(args.vec@).subrange(0, n as int) =~= spec_args(args.vec@));
    }
    r
}

/// The single shell command line a remote execution runs: environment
/// assignments in front of the staged entry point with the operation name
/// as its argument; a directory unit is entered first and run through its
/// `./unit` entry point.
pub open spec fn spec_remote_command(
    definition_type: DefinitionType,
    name: Seq<char>,
    pairs: Seq<(Seq<char>, Seq<char>)>,
    op: Operation,
) -> Seq<char> {
    match definition_type {
        DefinitionType::Executable => spec_env_assignments(pairs) + " "@ + spec_remote_path(name)
            + " "@ + spec_operation_name(op),
        DefinitionType::Directory => "cd "@ + spec_remote_path(name) + "; "@
            + spec_env_assignments(pairs) + " ./unit "@ + spec_operation_name(op),
    }
}

/// Builds the remote command line for one operation of one instance.
pub fn remote_command(
    definition_type: DefinitionType,
    name: &str,
    args: &ArgSet,
    operation: Operation,
) -> (r: String)
    ensures
        r@ == spec_remote_command(definition_type, name@, spec_args(args.vec@), operation),
{
    let env = env_assignments(args);
    let path = remote_path(name);
    let mut r = String::new();
    match definition_type {
        DefinitionType::Executable => {
            r.append(env.as_str());
            r.append(" ");
            r.append(path.as_str());
            r.append(" ");
            r.append(operation.to_str());
        },
        DefinitionType::Directory => {
            r.append("cd ");
            r.append(path.as_str());
            r.append("; ");
            r.append(env.as_str());
            r.append(" ./unit ");
            r.append(operation.to_str());
        },
    }
    r
}

/// Whether the `k`-th execution of a session, with the given history of
/// instance signatures, transports the unit's files: only when no earlier
/// execution of the session carried the same signature.
pub open spec fn spec_transports(history: Seq<Seq<char>>, k: int) -> bool {
    !exists|j: int| 0 <= j < k && history[j] == history[k]
}

/// The per-session staging cache: the signatures of the instances whose
/// files were already transported, plus the ghost history of all staging
/// decisions taken.
pub struct StagingCache {
    pub staged: Vec<String>,
    pub history: Ghost<Seq<Seq<char>>>,
}

impl StagingCache {
    /// Whether a signature was already staged this session.
    pub open spec fn spec_contains(self, sig: Seq<char>) -> bool {
        exists|j: int| 0 <= j < self.staged@.len() && self.staged@[j]@ == sig
    }

    /// The staged set is exactly what the session's history mentions.
    pub open spec fn wf(self) -> bool {
        forall|sig: Seq<char>|
            #[trigger] self.spec_contains(sig) <==> exists|j: int|
                0 <= j < self.history@.len() && self.history@[j] == sig
    }

    pub fn new() -> (c: StagingCache)
        ensures
            c.wf(),
            c.staged@.len() == 0,
            c.history@ == Seq::<Seq<char>>::empty(),
    {
        let c = StagingCache { staged: Vec::new(), history: Ghost(Seq::empty()) };
        proof {
            assert forall|sig: Seq<char>| !(#[trigger] c.spec_contains(sig)) by {}
        }
        c
    }

    /// Takes the staging decision for one execution: reports whether the
    /// unit's files must be transported now, and records the signature so
    /// that no later execution of this session transports them again.
    pub fn stage_decision(&mut self, signature: &str) -> (transport: bool)
        requires
            old(self).wf(),
        ensures
            final(self).wf(),
            final(self).history@ == old(self).history@.push(signature@),
            transport == spec_transports(final(self).history@, old(self).history@.len() as int),
            final(self).spec_contains(signature@),
    {
        let n = self.staged.len();
        let mut i: usize = 0;
        let mut found = false;
        while i < n
            invariant
                i <= n,
                n == self.staged@.len(),
                found ==> self.spec_contains(signature@),
                !found ==> forall|j: int| 0 <= j < i ==> self.staged@[j]@ != signature@,
            decreases n - i,
        {
            if str_eq(self.staged[i].as_str(), signature) {
                found = true;
            }
            i = i + 1;
        }
        let ghost pre = *self;
        self.history = Ghost(self.history@.push(signature@));
        if found {
            proof {
                assert forall|sig: Seq<char>| #[trigger]
                    self.spec_contains(sig) <==> exists|j: int|
                        0 <= j < self.history@.len() && self.history@[j] == sig by {
                    if pre.spec_contains(sig) {
                        let j = choose|j: int|
                            0 <= j < pre.staged@.len() && pre.staged@[j]@ == sig;
                        assert(self.staged@[j]@ == sig);
                    }
                    if self.spec_contains(sig) {
                        let j = choose|j: int|
                            0 <= j < self.staged@.len() && self.staged@[j]@ == sig;
                        assert(pre.staged@[j]@ == sig);
                        let j2 = choose|j2: int|
                            0 <= j2 < pre.history@.len() && pre.history@[j2] == sig;
                        assert(self.history@[j2] == sig);
                    }
                    if exists|j: int| 0 <= j < self.history@.len() && self.history@[j] == sig {
                        let j = choose|j: int|
                            0 <= j < self.history@.len() && self.history@[j] == sig;
                        if j < pre.history@.len() {
                            assert(pre.history@[j] == sig);
                        } else {
                            assert(sig == signature@);
                        }
                    }
                }
                let k = pre.history@.len() as int;
                let j0 = choose|j: int|
                    0 <= j < pre.history@.len() && pre.history@[j] == signature@;
                assert(self.history@[j0] == self.history@[k]);
                assert(!spec_transports(self.history@, k));
            }
            false
        } else {
            self.staged.push(signature.to_owned());
            proof {
                assert forall|sig: Seq<char>| #[trigger]
                    self.spec_contains(sig) <==> exists|j: int|
                        0 <= j < self.history@.len() && self.history@[j] == sig by {
                    if self.spec_contains(sig) {
                        let j = choose|j: int|
                            0 <= j < self.staged@.len() && self.staged@[j]@ == sig;
                        if j < pre.staged@.len() {
                            assert(pre.spec_contains(sig));
                            let j2 = choose|j2: int|
                                0 <= j2 < pre.history@.len() && pre.history@[j2] == sig;
                            assert(self.history@[j2] == sig);
                        } else {
                            assert(self.history@[pre.history@.len() as int] == sig);
                        }
                    }
                    if exists|j: int| 0 <= j < self.history@.len() && self.history@[j] == sig {
                        let j = choose|j: int|
                            0 <= j < self.history@.len() && self.history@[j] == sig;
                        if j < pre.history@.len() {
                            assert(pre.history@[j] == sig);
                            assert(pre.spec_contains(sig));
                            let j2 = choose|j2: int|
                                0 <= j2 < pre.staged@.len() && pre.staged@[j2]@ == sig;
                            assert(self.staged@[j2]@ == sig);
                        } else {
                            assert(self.staged@[pre.staged@.len() as int]@ == sig);
                        }
                    }
                }
                let k = pre.history@.len() as int;
                assert forall|j: int| !(0 <= j < k && self.history@[j] == self.history@[k]) by {
                    if 0 <= j < k && self.history@[j] == self.history@[k] {
                        assert(pre.history@[j] == signature@);
                        assert(pre.spec_contains(signature@));
                        let j2 = choose|j2: int|
                            0 <= j2 < pre.staged@.len() && pre.staged@[j2]@ == signature@;
                        assert(false);
                    }
                }
                assert(self.spec_contains(signature@)) by {
                    assert(self.staged@[pre.staged@.len() as int]@ == signature@);
                }
            }
            true
        }
    }
}

/// Within one session, any two executions against the same instance
/// signature transport the unit's files at most once: the later of the two
/// never transports.
pub proof fn lemma_staged_once(history: Seq<Seq<char>>, k1: int, k2: int)
    requires
        0 <= k1 < k2 < history.len(),
        history[k1] == history[k2],
    ensures
        !spec_transports(history, k2),
{
}

} // verus!
