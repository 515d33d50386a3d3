//! The compiler wrapper's decisions: which compiler invocations the indexer
//! extracts a call graph from, how the in-process compiler is invoked, and
//! how the wrapper's exit status is reported.
//!
//! When the indexer runs as the compiler wrapper, it is invoked once per
//! crate with the real compiler's path and arguments. Only workspace-member
//! crates that are really being compiled are indexed: not dependencies, build
//! scripts, proc-macros or version probes; every other invocation goes to the
//! real compiler unchanged.

use vstd::prelude::*;

use crate::fingerprint::texts;
use crate::text::{chars_equal, chars_of, ends_with_chars, starts_with_chars, trim, trimmed};

verus! {

/// The value `args` gives for `flag`, scanning from position `i`: the next
/// argument after a `flag` that has one, or the rest of a `flag=...`
/// argument, whichever comes first.
pub open spec fn flag_value(args: Seq<Seq<char>>, flag: Seq<char>, i: int) -> Option<Seq<char>>
    decreases args.len() - i,
{
    if i < 0 || i >= args.len() {
        None
    } else if args[i] == flag && i + 1 < args.len() {
        Some(args[i + 1])
    } else if args[i] != flag && (flag + seq!['=']).is_prefix_of(args[i]) {
        Some(args[i].skip(flag.len() + 1int))
    } else {
        flag_value(args, flag, i + 1)
    }
}

/// The value given for `flag` on a command line: the argument after the
/// first `flag` (as `--flag value`), or what follows `flag=` (as
/// `--flag=value`), whichever comes first.
pub fn arg_value(args: &Vec<String>, flag: &str) -> (r: Option<String>)
    ensures
        match r {
            Some(v) => flag_value(texts(args@), flag@, 0) == Some(v@),
            None => flag_value(texts(args@), flag@, 0) is None,
        },
{
    let f = chars_of(flag);
    let mut prefix = chars_of(flag);
    prefix.push('=');
    assert(prefix@ =~= flag@ + seq!['=']);
    let ghost a = texts(args@);
    let mut i: usize = 0;
    while i < args.len()
        invariant
            a == texts(args@),
            f@ == flag@,
            prefix@ == flag@ + seq!['='],
            i <= args@.len(),
            flag_value(a, flag@, 0) == flag_value(a, flag@, i as int),
        decreases args.len() - i,
    {
        let cs = chars_of(args[i].as_str());
        assert(cs@ == a[i as int]);
        if chars_equal(&cs, &f) {
            if i + 1 < args.len() {
                let v = args[i + 1].clone();
                assert(a[i + 1] == v@);
                return Some(v);
            }
        } else if starts_with_chars(&cs, &prefix) {
            let mut v = String::new();
            let mut k: usize = prefix.len();
            while k < cs.len()
                invariant
                    prefix@.len() <= k <= cs@.len(),
                    v@ == cs@.subrange(prefix@.len() as int, k as int),
                decreases cs.len() - k,
            {
                crate::text::push_char(&mut v, cs[k]);
                assert(cs@.subrange(prefix@.len() as int, k + 1) =~= cs@.subrange(prefix@.len() as int, k as int).push(cs@[k as int]));
                k = k + 1;
            }
            proof {
                assert(cs@.take(prefix@.len() as int) == prefix@);
                assert((flag@ + seq!['=']).is_prefix_of(cs@)) by {
                    assert(cs@.subrange(0, prefix@.len() as int) =~= cs@.take(prefix@.len() as int));
                }
                assert(v@ =~= a[i as int].skip(flag@.len() + 1int));
            }
            return Some(v);
        }
        proof {
            if !(cs@ == flag@) {
                assert(!(flag@ + seq!['=']).is_prefix_of(cs@)) by {
                    if (flag@ + seq!['=']).is_prefix_of(cs@) {
                        assert(cs@.take(prefix@.len() as int) =~= cs@.subrange(0, prefix@.len() as int));
                    }
                }
            }
        }
        i = i + 1;
    }
    None
}

/// `args` names the crate type `proc-macro`, as `--crate-type proc-macro` or
/// `--crate-type=proc-macro`.
pub open spec fn proc_macro_args(args: Seq<Seq<char>>) -> bool {
    exists|i: int|
        0 <= i < args.len() && ((#[trigger] args[i] == "--crate-type"@ && i + 1 < args.len() && args[i + 1]
            == "proc-macro"@) || args[i] == "--crate-type=proc-macro"@)
}

/// Whether the command line compiles a proc-macro crate.
pub fn is_proc_macro(args: &Vec<String>) -> (r: bool)
    ensures
        r == proc_macro_args(texts(args@)),
{
    let ghost a = texts(args@);
    let flag = chars_of("--crate-type");
    let kind = chars_of("proc-macro");
    let joined = chars_of("--crate-type=proc-macro");
    let mut i: usize = 0;
    while i < args.len()
        invariant
            a == texts(args@),
            flag@ == "--crate-type"@,
            kind@ == "proc-macro"@,
            joined@ == "--crate-type=proc-macro"@,
            i <= args@.len(),
            forall|k: int| 0 <= k < i ==> !((#[trigger] a[k] == "--crate-type"@ && k + 1 < a.len() && a[k + 1]
                == "proc-macro"@) || a[k] == "--crate-type=proc-macro"@),
        decreases args.len() - i,
    {
        let cs = chars_of(args[i].as_str());
        assert(cs@ == a[i as int]);
        if chars_equal(&cs, &joined) {
            return true;
        }
        if chars_equal(&cs, &flag) && i + 1 < args.len() {
            let next = chars_of(args[i + 1].as_str());
            assert(next@ == a[i + 1]);
            if chars_equal(&next, &kind) {
                return true;
            }
        }
        i = i + 1;
    }
    false
}

/// An invocation the indexer extracts a call graph from: a primary
/// (workspace-member) package, with a crate name not starting with
/// `build_script`, not a proc-macro, and naming a `.rs` input (a version or
/// `--print` probe names none).
pub open spec fn extracted(primary: bool, args: Seq<Seq<char>>) -> bool {
    &&& primary
    &&& flag_value(args, "--crate-name"@, 0) matches Some(name) && !"build_script"@.is_prefix_of(name)
    &&& !proc_macro_args(args)
    &&& exists|i: int| 0 <= i < args.len() && ".rs"@.is_suffix_of(#[trigger] args[i])
}

/// Whether to index this compiler invocation; `primary` says whether cargo
/// marked the package as a workspace member.
pub fn should_extract(primary: bool, args: &Vec<String>) -> (r: bool)
    ensures
        r == extracted(primary, texts(args@)),
{
    let ghost a = texts(args@);
    if !primary {
        return false;
    }
    let name = match arg_value(args, "--crate-name") {
        None => {
            return false;
        },
        Some(n) => n,
    };
    let prefix = chars_of("build_script");
    let nc = chars_of(name.as_str());
    if starts_with_chars(&nc, &prefix) {
        assert("build_script"@.is_prefix_of(name@)) by {
            assert(nc@.take(prefix@.len() as int) =~= nc@.subrange(0, prefix@.len() as int));
        }
        return false;
    }
    assert(!"build_script"@.is_prefix_of(name@)) by {
        if "build_script"@.is_prefix_of(name@) {
            assert(nc@.take(prefix@.len() as int) =~= nc@.subrange(0, prefix@.len() as int));
        }
    }
    if is_proc_macro(args) {
        return false;
    }
    let suffix = chars_of(".rs");
    let mut i: usize = 0;
    while i < args.len()
        invariant
            a == texts(args@),
            primary,
            flag_value(a, "--crate-name"@, 0) == Some(name@),
            !"build_script"@.is_prefix_of(name@),
            !proc_macro_args(a),
            suffix@ == ".rs"@,
            i <= args@.len(),
            forall|k: int| 0 <= k < i ==> !".rs"@.is_suffix_of(#[trigger] a[k]),
        decreases args.len() - i,
    {
        let cs = chars_of(args[i].as_str());
        assert(cs@ == a[i as int]);
        if ends_with_chars(&cs, &suffix) {
            assert(".rs"@.is_suffix_of(a[i as int])) by {
                assert(cs@.skip(cs@.len() - suffix@.len()) =~= cs@.subrange(cs@.len() - suffix@.len(), cs@.len() as int));
            }
            return true;
        }
        assert(!".rs"@.is_suffix_of(a[i as int])) by {
            if ".rs"@.is_suffix_of(a[i as int]) {
                assert(cs@.skip(cs@.len() - suffix@.len()) =~= cs@.subrange(cs@.len() - suffix@.len(), cs@.len() as int));
            }
        }
        i = i + 1;
    }
    false
}


/// What the compiler wrapper does with one invocation.
pub enum WrapperPlan {
    /// No compiler path was given.
    MissingCompiler,
    /// Compile the crate in process and extract its call graph.
    Extract { rustc: String, args: Vec<String> },
    /// Run the real compiler on the arguments unchanged.
    Passthrough { rustc: String, args: Vec<String> },
}

/// `argv` from position `from` on.
fn tail_of(argv: &Vec<String>, from: usize) -> (r: Vec<String>)
    requires
        from <= argv@.len(),
    ensures
        texts(r@) == texts(argv@.skip(from as int)),
{
    let mut r: Vec<String> = Vec::new();
    let mut i: usize = from;
    while i < argv.len()
        invariant
            from <= i <= argv@.len(),
            texts(r@) == texts(argv@.subrange(from as int, i as int)),
        decreases argv.len() - i,
    {
        let a = argv[i].clone();
        let ghost prev = r@;
        r.push(a);
        assert(texts(r@) =~= texts(prev).push(argv@[i as int]@));
        assert(texts(argv@.subrange(from as int, i + 1)) =~= texts(argv@.subrange(from as int, i as int)).push(argv@[i as int]@));
        i = i + 1;
    }
    assert(argv@.subrange(from as int, argv@.len() as int) =~= argv@.skip(from as int));
    r
}

/// Decide what to do with the wrapper's command line `argv`: the wrapper
/// itself, the real compiler, then the compiler's arguments. `primary` says
/// whether cargo marked the package as a workspace member.
pub fn wrapper_plan(argv: &Vec<String>, primary: bool) -> (p: WrapperPlan)
    ensures
        argv@.len() < 2 ==> p is MissingCompiler,
        argv@.len() >= 2 ==> match p {
            WrapperPlan::Extract { rustc, args } => extracted(primary, texts(argv@.skip(2))) && rustc@ == argv@[1]@
                && texts(args@) == texts(argv@.skip(2)),
            WrapperPlan::Passthrough { rustc, args } => !extracted(primary, texts(argv@.skip(2))) && rustc@
                == argv@[1]@ && texts(args@) == texts(argv@.skip(2)),
            WrapperPlan::MissingCompiler => false,
        },
{
    if argv.len() < 2 {
        return WrapperPlan::MissingCompiler;
    }
    let rustc = argv[1].clone();
    let args = tail_of(argv, 2);
    assert(texts(args@) == texts(argv@.skip(2)));
    if should_extract(primary, &args) {
        WrapperPlan::Extract { rustc, args }
    } else {
        WrapperPlan::Passthrough { rustc, args }
    }
}

/// Whether the compiler has to be told its sysroot: the arguments name none.
pub fn needs_sysroot(args: &Vec<String>) -> (r: bool)
    ensures
        r == flag_value(texts(args@), "--sysroot"@, 0) is None,
{
    arg_value(args, "--sysroot").is_none()
}

/// The command line of the in-process compiler: the real compiler's path,
/// its arguments, then `--sysroot` and the sysroot found, when the arguments
/// name none and one was found.
pub fn driver_args(rustc: &str, args: &Vec<String>, sysroot: Option<String>) -> (r: Vec<String>)
    ensures
        texts(r@) == seq![rustc@] + texts(args@) + (match sysroot {
            Some(s) => if flag_value(texts(args@), "--sysroot"@, 0) is None {
                seq!["--sysroot"@, s@]
            } else {
                seq![]
            },
            None => seq![],
        }),
{
    let mut r: Vec<String> = Vec::new();
    r.push(rustc.to_string());
    let rest = tail_of(args, 0);
    assert(args@.skip(0) =~= args@);
    let mut i: usize = 0;
    while i < rest.len()
        invariant
            i <= rest@.len(),
            texts(r@) == seq![rustc@] + texts(rest@.take(i as int)),
        decreases rest.len() - i,
    {
        let ghost prev = r@;
        r.push(rest[i].clone());
        assert(texts(r@) =~= texts(prev).push(rest@[i as int]@));
        assert(texts(rest@.take(i + 1)) =~= texts(rest@.take(i as int)).push(rest@[i as int]@));
        assert(texts(r@) =~= seq![rustc@] + texts(rest@.take(i + 1)));
        i = i + 1;
    }
    assert(rest@.take(rest@.len() as int) =~= rest@);
    if needs_sysroot(args) {
        if let Some(s) = sysroot {
            let ghost before = r@;
            r.push("--sysroot".to_string());
            r.push(s);
            proof {
                reveal_strlit("--sysroot");
            }
            assert(texts(r@) =~= texts(before) + seq!["--sysroot"@, s@]);
        }
    }
    assert(texts(r@) =~= seq![rustc@] + texts(args@) + (match sysroot {
        Some(s) => if flag_value(texts(args@), "--sysroot"@, 0) is None {
            seq!["--sysroot"@, s@]
        } else {
            seq![]
        },
        None => seq![],
    }));
    r
}

/// The crate name the arguments give, or `crate` when they give none.
pub fn crate_name_of(args: &Vec<String>) -> (r: String)
    ensures
        r@ == match flag_value(texts(args@), "--crate-name"@, 0) {
            Some(n) => n,
            None => "crate"@,
        },
{
    match arg_value(args, "--crate-name") {
        Some(n) => n,
        None => "crate".to_string(),
    }
}

/// The sysroot the real compiler printed, trimmed, when it ran successfully.
pub fn sysroot_from(success: bool, printed: &str) -> (r: Option<String>)
    ensures
        match r {
            Some(s) => success && s@ == trimmed(printed@),
            None => !success,
        },
{
    if !success {
        return None;
    }
    Some(trim(printed))
}

/// How the in-process compilation ended.
pub enum DriverOutcome {
    /// It ran to the end.
    Finished,
    /// The compiler skipped the analysis.
    Skipped,
    /// The extraction callback stopped it early.
    Interrupted,
    /// Compilation failed.
    Failed,
}

/// Whether the wrapper reports success: every outcome but a failed
/// compilation.
pub fn driver_succeeded(outcome: DriverOutcome) -> (ok: bool)
    ensures
        ok == !(outcome is Failed),
{
    match outcome {
        DriverOutcome::Failed => false,
        _ => true,
    }
}

/// The wrapper's exit status after running the real compiler: the
/// compiler's exit code, truncated to a byte, or 1 when it has none (it was
/// killed by a signal).
pub fn exit_code_of(code: Option<i32>) -> (r: u8)
    ensures
        r == match code {
            Some(c) => c as u8,
            None => 1u8,
        },
{
    match code {
        Some(c) => c as u8,
        None => 1,
    }
}

} // verus!
