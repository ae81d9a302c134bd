//! The command line's arguments: options given as `--flag value` (or
//! `-f value`) and the positional arguments between them.
use vstd::prelude::*;
use crate::text::str_eq;

verus! {

/// The arguments as character sequences.
pub open spec fn arg_views(args: Seq<String>) -> Seq<Seq<char>> {
    args.map_values(|a: String| a@)
}

/// Index of the first argument equal to `long` or `short`, or the number of
/// arguments when none is.
pub open spec fn flag_index(args: Seq<Seq<char>>, long: Seq<char>, short: Seq<char>) -> nat
    decreases args.len(),
{
    if args.len() == 0 {
        0
    } else if args[0] == long || args[0] == short {
        0
    } else {
        1 + flag_index(args.drop_first(), long, short)
    }
}

/// The value after the first `long` or `short` flag, if the flag is there and
/// something follows it.
pub open spec fn opt_value(args: Seq<Seq<char>>, long: Seq<char>, short: Seq<char>) -> Option<Seq<char>> {
    let i = flag_index(args, long, short) as int;
    if i + 1 < args.len() {
        Some(args[i + 1])
    } else {
        None
    }
}

/// The arguments that are neither a flag (starting with `-`) nor the value
/// right after one, in order.
pub open spec fn positionals(args: Seq<Seq<char>>) -> Seq<Seq<char>>
    decreases args.len(),
{
    if args.len() == 0 {
        Seq::empty()
    } else if args[0].len() > 0 && args[0][0] == '-' {
        if args.len() < 2 {
            Seq::empty()
        } else {
            positionals(args.skip(2))
        }
    } else {
        seq![args[0]] + positionals(args.skip(1))
    }
}

proof fn lemma_flag_index(args: Seq<Seq<char>>, long: Seq<char>, short: Seq<char>, k: int)
    requires
        0 <= k <= args.len(),
        forall|i: int| 0 <= i < k ==> #[trigger] args[i] != long && args[i] != short,
        k == args.len() || args[k] == long || args[k] == short,
    ensures
        flag_index(args, long, short) == k,
    decreases k,
{
    if k > 0 {
        assert forall|i: int| 0 <= i < k - 1 implies #[trigger] args.drop_first()[i] != long
            && args.drop_first()[i] != short by {
            assert(args.drop_first()[i] == args[i + 1]);
        }
        if k < args.len() {
            assert(args.drop_first()[k - 1] == args[k]);
        }
        lemma_flag_index(args.drop_first(), long, short, k - 1);
    }
}

/// Pulls `--flag value` (or `-short value`) out of the arguments: the value
/// after the first occurrence of either spelling.
pub fn take_opt(args: &[String], long: &str, short: &str) -> (r: Option<String>)
    ensures
        match r {
            Some(v) => opt_value(arg_views(args@), long@, short@) == Some(v@),
            None => opt_value(arg_views(args@), long@, short@) is None,
        },
{
    let ghost av = arg_views(args@);
    let mut i: usize = 0;
    while i < args.len() && !(str_eq(args[i].as_str(), long) || str_eq(args[i].as_str(), short))
        invariant
            i <= args@.len(),
            av == arg_views(args@),
            forall|j: int| 0 <= j < i ==> #[trigger] av[j] != long@ && av[j] != short@,
        decreases args@.len() - i,
    {
        proof {
            assert(av[i as int] == args@[i as int]@);
        }
        i = i + 1;
    }
    proof {
        if i < args@.len() {
            assert(av[i as int] == args@[i as int]@);
        }
        lemma_flag_index(av, long@, short@, i as int);
    }
    if i < args.len() && i + 1 < args.len() {
        proof {
            assert(av[i + 1] == args@[i + 1]@);
        }
        Some(args[i + 1].clone())
    } else {
        None
    }
}

/// The positional arguments: every argument that is not a flag (starting with
/// `-`) or the value after one.
pub fn positional(args: &[String]) -> (r: Vec<String>)
    ensures
        arg_views(r@) == positionals(arg_views(args@)),
{
    let ghost av = arg_views(args@);
    let mut out: Vec<String> = Vec::new();
    let mut i: usize = 0;
    proof {
        assert(av.skip(0) =~= av);
        assert(arg_views(out@) =~= Seq::<Seq<char>>::empty());
    }
    while i < args.len()
        invariant
            i <= args@.len(),
            av == arg_views(args@),
            arg_views(out@) + positionals(av.skip(i as int)) == positionals(av),
        decreases args@.len() - i,
    {
        let ghost rest = av.skip(i as int);
        proof {
            assert(rest[0] == args@[i as int]@);
        }
        let a = &args[i];
        let cs = crate::text::chars_of(a.as_str());
        let dash = cs.len() > 0 && cs[0] == '-';
        if dash {
            if i + 1 < args.len() {
                proof {
                    assert(rest.skip(2) =~= av.skip(i + 2));
                }
                i = i + 2;
            } else {
                proof {
                    assert(av.skip(args@.len() as int) =~= Seq::<Seq<char>>::empty());
                }
                i = args.len();
            }
        } else {
            let ghost prev = arg_views(out@);
            out.push(a.clone());
            proof {
                assert(rest.skip(1) =~= av.skip(i + 1));
                assert(arg_views(out@) =~= prev.push(a@));
                assert(prev + (seq![a@] + positionals(av.skip(i + 1))) =~= prev.push(a@) + positionals(
                    av.skip(i + 1),
                ));
            }
            i = i + 1;
        }
    }
    proof {
        assert(av.skip(args@.len() as int) =~= Seq::<Seq<char>>::empty());
        assert(arg_views(out@) + Seq::<Seq<char>>::empty() =~= arg_views(out@));
    }
    out
}

} // verus!
