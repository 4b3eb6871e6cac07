//! The command line: `--name=value` options and bare `--name` switches.
use vstd::prelude::*;

use crate::text::{chars_of, owned, push_str, same_chars, string_of};

verus! {

broadcast use vstd::string::group_string_axioms;

/// The value of the first argument spelt `--<name>=<value>`.
pub open spec fn option_in(args: Seq<String>, name: Seq<char>) -> Option<Seq<char>>
    decreases args.len(),
{
    if args.len() == 0 {
        None
    } else {
        let prefix = "--"@ + name + "="@;
        let a = args[0]@;
        if crate::text::starts_with(a, prefix) {
            Some(a.subrange(prefix.len() as int, a.len() as int))
        } else {
            option_in(args.drop_first(), name)
        }
    }
}

/// `--<name>=<value>`, absent rather than defaulted: for the switches where
/// "not given" and "given the usual value" are different decisions.
pub fn opt(args: &Vec<String>, name: &str) -> (v: Option<String>)
    ensures
        v matches Some(s) ==> option_in(args@, name@) == Some(s@),
        v is None ==> option_in(args@, name@) is None,
{
    let mut p = String::new();
    push_str(&mut p, "--");
    push_str(&mut p, name);
    push_str(&mut p, "=");
    let prefix = chars_of(p.as_str());
    assert(prefix@ =~= "--"@ + name@ + "="@);
    let mut i: usize = 0;
    assert(args@.subrange(0, args@.len() as int) =~= args@);
    while i < args.len()
        invariant
            i <= args@.len(),
            prefix@ == "--"@ + name@ + "="@,
            option_in(args@, name@) == option_in(args@.subrange(i as int, args@.len() as int), name@),
        decreases args@.len() - i,
    {
        let ghost rest = args@.subrange(i as int, args@.len() as int);
        assert(rest[0] == args@[i as int]);
        let a = chars_of(args[i].as_str());
        if crate::text::has_at(&a, 0, &prefix) {
            assert(a@.subrange(0, prefix@.len() as int) == prefix@);
            let v = crate::text::slice(&a, prefix.len(), a.len());
            return Some(string_of(&v));
        }
        assert(rest.drop_first() =~= args@.subrange(i + 1, args@.len() as int));
        i = i + 1;
    }
    None
}

/// `--<name>=<value>`, or `fallback` when it is not given.
pub fn arg(args: &Vec<String>, name: &str, fallback: &str) -> (v: String)
    ensures
        v@ == (match option_in(args@, name@) {
            Some(s) => s,
            None => fallback@,
        }),
{
    match opt(args, name) {
        Some(v) => v,
        None => owned(fallback),
    }
}

/// Is the bare switch `--<name>` among the arguments?
pub fn flag(args: &Vec<String>, name: &str) -> (on: bool)
    ensures
        on == exists|i: int| 0 <= i < args@.len() && (#[trigger] args@[i])@ == "--"@ + name@,
{
    let mut w = String::new();
    push_str(&mut w, "--");
    push_str(&mut w, name);
    let want = chars_of(w.as_str());
    assert(want@ =~= "--"@ + name@);
    let mut i: usize = 0;
    while i < args.len()
        invariant
            i <= args@.len(),
            want@ == "--"@ + name@,
            forall|k: int| 0 <= k < i ==> (#[trigger] args@[k])@ != "--"@ + name@,
        decreases args@.len() - i,
    {
        if same_chars(&chars_of(args[i].as_str()), &want) {
            return true;
        }
        i = i + 1;
    }
    false
}

/// The repository root, from the config directory's parent: an empty or
/// absent parent means where the process already is.
pub fn repo_root(config_parent: Option<&str>) -> (root: String)
    ensures
        root@ == (match config_parent {
            Some(p) => if p@.len() > 0 { p@ } else { "."@ },
            None => "."@,
        }),
{
    crate::advisor::root_of(config_parent)
}

} // verus!
