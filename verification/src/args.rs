//! Type-erased argument values and the typed-dispatch check.
//!
//! A handler declares an ordered list of expected argument types at
//! registration time. At dispatch time the published argument sequence is
//! matched positionally against that declaration; an arity or type mismatch
//! is a contract violation naming the offending position and the expected
//! type there.

use vstd::prelude::*;

verus! {

/// The closed set of argument types a handler may declare.
#[derive(Clone, Copy, Debug, PartialEq, Eq, Structural)]
pub enum ArgType {
    Int,
    Text,
    Flag,
}

/// A dynamically typed argument value passed to `publish`.
#[derive(Debug, Clone)]
pub enum ArgValue {
    Int(i64),
    Text(String),
    Flag(bool),
}

/// A typed-dispatch contract violation: the first offending parameter
/// position and the type declared there, if any. `expected` is `None`
/// exactly when the violation is a surplus argument beyond the declared
/// arity.
#[derive(Clone, Copy, Debug, PartialEq, Eq)]
pub struct Violation {
    pub position: usize,
    pub expected: Option<ArgType>,
}

/// The declared type that a value satisfies.
pub open spec fn arg_type_of(v: ArgValue) -> ArgType {
    match v {
        ArgValue::Int(_) => ArgType::Int,
        ArgValue::Text(_) => ArgType::Text,
        ArgValue::Flag(_) => ArgType::Flag,
    }
}

/// The argument sequence satisfies the declared signature: same arity and
/// a positional type match everywhere.
pub open spec fn sig_ok(sig: Seq<ArgType>, args: Seq<ArgValue>) -> bool {
    &&& sig.len() == args.len()
    &&& forall|i: int| 0 <= i < sig.len() ==> arg_type_of(#[trigger] args[i]) == sig[i]
}

/// The first position at which the signature and the arguments disagree:
/// the first positional type mismatch, or the smaller of the two lengths
/// when one list is a strict prefix of the other. When `sig_ok` holds this
/// is the common length.
pub open spec fn violation_pos(sig: Seq<ArgType>, args: Seq<ArgValue>) -> int
    decreases sig.len(),
{
    if sig.len() == 0 || args.len() == 0 {
        0
    } else if arg_type_of(args[0]) != sig[0] {
        0
    } else {
        1 + violation_pos(sig.subrange(1, sig.len() as int), args.subrange(1, args.len() as int))
    }
}

/// The declared type at the first violating position, if that position is
/// within the declared signature.
pub open spec fn expected_at(sig: Seq<ArgType>, args: Seq<ArgValue>) -> Option<ArgType> {
    if violation_pos(sig, args) < sig.len() {
        Some(sig[violation_pos(sig, args)])
    } else {
        None
    }
}

/// When the first `i` positions match, the first violation lies at `i`
/// positions past the start of the remaining suffixes.
proof fn lemma_violation_pos_split(sig: Seq<ArgType>, args: Seq<ArgValue>, i: int)
    requires
        0 <= i <= sig.len(),
        i <= args.len(),
        forall|j: int| 0 <= j < i ==> arg_type_of(#[trigger] args[j]) == sig[j],
    ensures
        violation_pos(sig, args) == i + violation_pos(
            sig.subrange(i, sig.len() as int),
            args.subrange(i, args.len() as int),
        ),
    decreases i,
{
    if i == 0 {
        assert(sig.subrange(0, sig.len() as int) =~= sig);
        assert(args.subrange(0, args.len() as int) =~= args);
    } else {
        let sig1 = sig.subrange(1, sig.len() as int);
        let args1 = args.subrange(1, args.len() as int);
        assert(arg_type_of(args[0]) == sig[0]);
        assert(forall|j: int| 0 <= j < i - 1 ==> arg_type_of(#[trigger] args1[j]) == sig1[j]);
        lemma_violation_pos_split(sig1, args1, i - 1);
        assert(sig1.subrange(i - 1, sig1.len() as int) =~= sig.subrange(i, sig.len() as int));
        assert(args1.subrange(i - 1, args1.len() as int) =~= args.subrange(i, args.len() as int));
    }
}

/// The declared type that a value satisfies.
pub fn type_of(v: &ArgValue) -> (t: ArgType)
    ensures
        t == arg_type_of(*v),
{
    match v {
        ArgValue::Int(_) => ArgType::Int,
        ArgValue::Text(_) => ArgType::Text,
        ArgValue::Flag(_) => ArgType::Flag,
    }
}

/// Match the published arguments against a declared signature.
///
/// Returns `None` exactly when the arguments satisfy the signature, and
/// otherwise the first offending position together with the type declared
/// there, if any.
pub fn check_args(sig: &Vec<ArgType>, args: &Vec<ArgValue>) -> (r: Option<Violation>)
    ensures
        r is None <==> sig_ok(sig@, args@),
        r matches Some(v) ==> v.position == violation_pos(sig@, args@) && v.expected == expected_at(
            sig@,
            args@,
        ),
{
    let n: usize = if sig.len() <= args.len() {
        sig.len()
    } else {
        args.len()
    };
    let mut i: usize = 0;
    while i < n
        invariant
            0 <= i <= n,
            n == if sig@.len() <= args@.len() {
                sig@.len()
            } else {
                args@.len()
            },
            forall|j: int| 0 <= j < i ==> arg_type_of(#[trigger] args@[j]) == sig@[j],
        decreases n - i,
    {
        let expect = sig[i];
        if type_of(&args[i]) != expect {
            proof {
                lemma_violation_pos_split(sig@, args@, i as int);
                let sig_i = sig@.subrange(i as int, sig@.len() as int);
                let args_i = args@.subrange(i as int, args@.len() as int);
                assert(arg_type_of(args_i[0]) != sig_i[0]);
                assert(violation_pos(sig_i, args_i) == 0);
            }
            return Some(Violation { position: i, expected: Some(expect) });
        }
        i += 1;
    }
    proof {
        lemma_violation_pos_split(sig@, args@, n as int);
        let sig_n = sig@.subrange(n as int, sig@.len() as int);
        let args_n = args@.subrange(n as int, args@.len() as int);
        assert(sig_n.len() == 0 || args_n.len() == 0);
        assert(violation_pos(sig_n, args_n) == 0);
    }
    if sig.len() == args.len() {
        None
    } else if sig.len() > n {
        Some(Violation { position: n, expected: Some(sig[n]) })
    } else {
        Some(Violation { position: n, expected: None })
    }
}

} // verus!
