//! The command line of the terminal client: flags, positional arguments and
//! the options of the `serve` command.
use vstd::prelude::*;
use vstd::string::*;
use crate::text::{parse_unsigned, parse_unsigned_range, to_chars, views};

verus! {

broadcast use vstd::string::group_string_axioms;

/// Errors in the command line.
#[derive(Debug)]
pub enum CliError {
    /// No positional argument at this index.
    MissingArgument(usize),
    /// The value given after `--port` is not a port number.
    InvalidPort(String),
}

/// The options of `serve`: the port to listen on and where to save files.
#[derive(Debug)]
pub struct ServeOptions {
    pub port: u16,
    pub save_dir: Option<String>,
}

/// The flags that may stand anywhere among the positional arguments.
pub open spec fn is_flag(a: Seq<char>) -> bool {
    a == "--compress"@ || a == "--bundle"@
}

/// The arguments that are not flags, in order (the program name included).
pub open spec fn positionals(args: Seq<Seq<char>>) -> Seq<Seq<char>> {
    args.filter(|a: Seq<char>| !is_flag(a))
}

proof fn lemma_positionals_prefix(args: Seq<Seq<char>>, k: int)
    requires
        0 <= k <= args.len(),
    ensures
        positionals(args.take(k)).len() <= positionals(args).len(),
        forall|j: int|
            0 <= j < positionals(args.take(k)).len() ==> #[trigger] positionals(args)[j]
                == positionals(args.take(k))[j],
    decreases args.len(),
{
    reveal_with_fuel(Seq::filter, 1);
    if k < args.len() {
        assert(args.drop_last().take(k) =~= args.take(k));
        lemma_positionals_prefix(args.drop_last(), k);
    } else {
        assert(args.take(k) =~= args);
    }
}

fn is_flag_arg(a: &String) -> (b: bool)
    ensures
        b == is_flag(a@),
{
    let compress = String::from_str("--compress");
    let bundle = String::from_str("--bundle");
    *a == compress || *a == bundle
}

/// The `n`th argument that is not `--compress` or `--bundle`, counting as
/// `args[n]` counts (the program name is argument 0).
pub fn nth_non_flag(args: &[String], n: usize) -> (r: Result<String, CliError>)
    ensures
        match r {
            Ok(a) => n < positionals(views(args@)).len() && a@ == positionals(views(args@))[n as int],
            Err(e) => n >= positionals(views(args@)).len() && (e matches CliError::MissingArgument(m)
                && m == n),
        },
{
    let ghost v = views(args@);
    let mut pos: usize = 0;
    let mut i: usize = 0;
    proof {
        reveal_with_fuel(Seq::filter, 1);
        assert(v.take(0) =~= Seq::<Seq<char>>::empty());
    }
    while i < args.len()
        invariant
            i <= args@.len(),
            v == views(args@),
            pos <= n,
            pos == positionals(v.take(i as int)).len(),
        decreases args@.len() - i,
    {
        proof {
            reveal_with_fuel(Seq::filter, 1);
            assert(v.take(i + 1).drop_last() =~= v.take(i as int));
            assert(v.take(i + 1).last() == args@[i as int]@);
        }
        if !is_flag_arg(&args[i]) {
            if pos == n {
                proof {
                    lemma_positionals_prefix(v, i + 1);
                    assert(positionals(v.take(i + 1))[n as int] == args@[i as int]@);
                }
                return Ok(args[i].clone());
            }
            pos = pos + 1;
        }
        i = i + 1;
    }
    proof {
        assert(v.take(i as int) =~= v);
    }
    Err(CliError::MissingArgument(n))
}

/// Whether `flag` is among the arguments.
pub fn has_flag(args: &[String], flag: &str) -> (b: bool)
    ensures
        b == views(args@).contains(flag@),
{
    let f = String::from_str(flag);
    let mut i: usize = 0;
    while i < args.len()
        invariant
            i <= args@.len(),
            f@ == flag@,
            forall|j: int| 0 <= j < i ==> args@[j]@ != flag@,
        decreases args@.len() - i,
    {
        if args[i] == f {
            assert(views(args@)[i as int] == flag@);
            return true;
        }
        i = i + 1;
    }
    proof {
        if views(args@).contains(flag@) {
            let j = choose|j: int| 0 <= j < views(args@).len() && views(args@)[j] == flag@;
            assert(args@[j]@ == flag@);
        }
    }
    false
}

/// How `serve` reads its options from position `i` on, with the port and
/// save directory found so far: `--port P` sets the port (an error when P
/// is not a `u16`), `--save D` the directory, anything else is skipped; an
/// option without a value after it is skipped too.
pub open spec fn serve_scan(args: Seq<Seq<char>>, i: int, port: u16, save: Option<Seq<char>>) -> Result<
    (u16, Option<Seq<char>>),
    Seq<char>,
>
    decreases args.len() - i,
{
    if i < 0 || i >= args.len() {
        Ok((port, save))
    } else if args[i] == "--port"@ && i + 1 < args.len() {
        match parse_unsigned(args[i + 1], 65535) {
            Some(p) => serve_scan(args, i + 2, p as u16, save),
            None => Err(args[i + 1]),
        }
    } else if args[i] == "--save"@ && i + 1 < args.len() {
        serve_scan(args, i + 2, port, Some(args[i + 1]))
    } else {
        serve_scan(args, i + 1, port, save)
    }
}

/// `--port` or `--save`: an option of `serve` that takes a value.
pub open spec fn is_serve_option(a: Seq<char>) -> bool {
    a == "--port"@ || a == "--save"@
}

/// From position 2 on, no option stands where the value of the option
/// before it belongs.
pub open spec fn options_apart(args: Seq<Seq<char>>) -> bool {
    forall|k: int, m: int|
        2 <= k && m == k + 1 && m < args.len() && is_serve_option(#[trigger] args[k]) ==> !is_serve_option(
            #[trigger] args[m],
        )
}

/// Every `--port` at position `i` or later that has a value after it has a
/// port number (0 to 65535) there.
pub open spec fn ports_valid_from(args: Seq<Seq<char>>, i: int) -> bool {
    forall|k: int, m: int|
        i <= k && m == k + 1 && m < args.len() && #[trigger] args[k] == "--port"@ ==> parse_unsigned(
            #[trigger] args[m],
            65535,
        ) is Some
}

/// `opt` stands at `j` (at or after `i`) with a value after it, and at no
/// later position with a value after it.
pub open spec fn last_option_at(args: Seq<Seq<char>>, opt: Seq<char>, i: int, j: int) -> bool {
    &&& i <= j
    &&& j + 1 < args.len()
    &&& args[j] == opt
    &&& forall|k: int| j < k && k + 1 < args.len() ==> #[trigger] args[k] != opt
}

/// `opt` stands at no position from `i` on with a value after it.
pub open spec fn no_option_from(args: Seq<Seq<char>>, opt: Seq<char>, i: int) -> bool {
    forall|k: int| i <= k && k + 1 < args.len() ==> #[trigger] args[k] != opt
}

proof fn lemma_serve_scan_from(args: Seq<Seq<char>>, i: int, port: u16, save: Option<Seq<char>>)
    requires
        2 <= i,
        options_apart(args),
    ensures
        serve_scan(args, i, port, save) is Ok <==> ports_valid_from(args, i),
        serve_scan(args, i, port, save) matches Ok((p, s)) ==> {
            &&& no_option_from(args, "--save"@, i) ==> s == save
            &&& forall|j: int| last_option_at(args, "--save"@, i, j) ==> s == Some(args[j + 1])
            &&& no_option_from(args, "--port"@, i) ==> p == port
            &&& forall|j: int|
                last_option_at(args, "--port"@, i, j) ==> parse_unsigned(args[j + 1], 65535) == Some(
                    p as nat,
                )
        },
    decreases args.len() - i,
{
    reveal_strlit("--port");
    reveal_strlit("--save");
    let pf = "--port"@;
    let sf = "--save"@;
    assert(pf != sf) by {
        assert(pf[2] != sf[2]);
    }
    let r = serve_scan(args, i, port, save);
    if i >= args.len() {
    } else if args[i] == pf && i + 1 < args.len() {
        assert(!is_serve_option(args[i + 1])) by {
            assert(is_serve_option(args[i]));
        }
        match parse_unsigned(args[i + 1], 65535) {
            Some(p) => {
                lemma_serve_scan_from(args, i + 2, p as u16, save);
                assert(ports_valid_from(args, i) <==> ports_valid_from(args, i + 2)) by {
                    if ports_valid_from(args, i + 2) {
                        assert forall|k: int, m: int|
                            i <= k && m == k + 1 && m < args.len() && #[trigger] args[k] == pf implies parse_unsigned(
                            #[trigger] args[m],
                            65535,
                        ) is Some by {
                            if k == i + 1 {
                                assert(args[k] == pf);
                            }
                        }
                    }
                }
                assert(no_option_from(args, sf, i) ==> no_option_from(args, sf, i + 2));
                assert forall|j: int| last_option_at(args, sf, i, j) implies last_option_at(args, sf, i + 2, j) by {
                    assert(j != i && j != i + 1) by {
                        if j == i + 1 {
                            assert(is_serve_option(args[j]));
                        }
                    }
                }
                assert forall|j: int| last_option_at(args, pf, i, j) implies (serve_scan(args, i, port, save) matches Ok((q, _))
                    ==> parse_unsigned(args[j + 1], 65535) == Some(q as nat)) by {
                    if j == i {
                        assert(no_option_from(args, pf, i + 2));
                    } else {
                        assert(j != i + 1) by {
                            if j == i + 1 {
                                assert(is_serve_option(args[j]));
                            }
                        }
                        assert(last_option_at(args, pf, i + 2, j));
                    }
                }
            },
            None => {
                assert(!ports_valid_from(args, i)) by {
                    assert(args[i] == pf);
                    assert(parse_unsigned(args[i + 1], 65535) is None);
                }
            },
        }
    } else if args[i] == sf && i + 1 < args.len() {
        assert(!is_serve_option(args[i + 1])) by {
            assert(is_serve_option(args[i]));
        }
        lemma_serve_scan_from(args, i + 2, port, Some(args[i + 1]));
        assert(ports_valid_from(args, i) <==> ports_valid_from(args, i + 2)) by {
            if ports_valid_from(args, i + 2) {
                assert forall|k: int, m: int|
                    i <= k && m == k + 1 && m < args.len() && #[trigger] args[k] == pf implies parse_unsigned(
                    #[trigger] args[m],
                    65535,
                ) is Some by {
                    if k == i + 1 {
                        assert(args[k] == pf);
                    }
                }
            }
        }
        assert(no_option_from(args, pf, i) ==> no_option_from(args, pf, i + 2));
        assert forall|j: int| last_option_at(args, pf, i, j) implies last_option_at(args, pf, i + 2, j) by {
            assert(j != i && j != i + 1) by {
                if j == i + 1 {
                    assert(is_serve_option(args[j]));
                }
            }
        }
        assert forall|j: int| last_option_at(args, sf, i, j) implies (serve_scan(args, i, port, save) matches Ok((_, s))
            ==> s == Some(args[j + 1])) by {
            if j == i {
                assert(no_option_from(args, sf, i + 2));
            } else {
                assert(j != i + 1) by {
                    if j == i + 1 {
                        assert(is_serve_option(args[j]));
                    }
                }
                assert(last_option_at(args, sf, i + 2, j));
            }
        }
    } else {
        lemma_serve_scan_from(args, i + 1, port, save);
        assert(ports_valid_from(args, i) <==> ports_valid_from(args, i + 1)) by {
            if ports_valid_from(args, i + 1) {
                assert forall|k: int, m: int|
                    i <= k && m == k + 1 && m < args.len() && #[trigger] args[k] == pf implies parse_unsigned(
                    #[trigger] args[m],
                    65535,
                ) is Some by {
                    if k == i {
                        assert(args[i] == pf && i + 1 < args.len());
                    }
                }
            }
        }
        assert forall|j: int| last_option_at(args, sf, i, j) implies last_option_at(args, sf, i + 1, j) by {
            if j == i {
                assert(args[i] == sf && i + 1 < args.len());
            }
        }
        assert forall|j: int| last_option_at(args, pf, i, j) implies last_option_at(args, pf, i + 1, j) by {
            if j == i {
                assert(args[i] == pf && i + 1 < args.len());
            }
        }
        assert(no_option_from(args, sf, i) ==> no_option_from(args, sf, i + 1));
        assert(no_option_from(args, pf, i) ==> no_option_from(args, pf, i + 1));
    }
}

/// Every option of `serve` is read wherever it stands among the arguments
/// (as long as no option stands where another's value belongs): the
/// options are accepted exactly when every `--port` has a port number
/// after it; the port is that of the last `--port` (8877 when there is
/// none), and the save directory the value of the last `--save` (none when
/// there is none), whichever comes first.
pub proof fn lemma_serve_options_anywhere(args: Seq<Seq<char>>, j: int)
    requires
        options_apart(args),
    ensures
        serve_scan(args, 2, 8877, None) is Ok <==> ports_valid_from(args, 2),
        serve_scan(args, 2, 8877, None) matches Ok((p, s)) ==> {
            &&& no_option_from(args, "--save"@, 2) ==> s is None
            &&& last_option_at(args, "--save"@, 2, j) ==> s == Some(args[j + 1])
            &&& no_option_from(args, "--port"@, 2) ==> p == 8877
            &&& last_option_at(args, "--port"@, 2, j) ==> parse_unsigned(args[j + 1], 65535) == Some(
                p as nat,
            )
        },
{
    lemma_serve_scan_from(args, 2, 8877, None);
}

/// A refused port is always the value of some `--port` that is not a port number.
pub proof fn lemma_serve_error_names_port(args: Seq<Seq<char>>, i: int, port: u16, save: Option<Seq<char>>)
    ensures
        serve_scan(args, i, port, save) matches Err(v) ==> exists|k: int|
            i <= k && k + 1 < args.len() && #[trigger] args[k] == "--port"@ && args[k + 1] == v
                && parse_unsigned(v, 65535) is None,
    decreases args.len() - i,
{
    if 0 <= i < args.len() {
        if args[i] == "--port"@ && i + 1 < args.len() {
            match parse_unsigned(args[i + 1], 65535) {
                Some(p) => {
                    lemma_serve_error_names_port(args, i + 2, p as u16, save);
                },
                None => {
                    assert(args[i] == "--port"@);
                },
            }
        } else if args[i] == "--save"@ && i + 1 < args.len() {
            lemma_serve_error_names_port(args, i + 2, port, Some(args[i + 1]));
        } else {
            lemma_serve_error_names_port(args, i + 1, port, save);
        }
    }
}

/// The options of `serve`, read from the arguments after the command
/// (`args[2..]`): port 8877 and no save directory unless given.
pub fn parse_serve_options(args: &[String]) -> (r: Result<ServeOptions, CliError>)
    ensures
        match r {
            Ok(o) => serve_scan(views(args@), 2, 8877, None) == Ok::<_, Seq<char>>(
                (
                    o.port,
                    match o.save_dir {
                        Some(d) => Some(d@),
                        None => None,
                    },
                ),
            ),
            Err(e) => (e matches CliError::InvalidPort(v) && serve_scan(views(args@), 2, 8877, None)
                == Err::<(u16, Option<Seq<char>>), _>(v@)),
        },
{
    let ghost v = views(args@);
    let port_flag = String::from_str("--port");
    let save_flag = String::from_str("--save");
    let mut port: u16 = 8877;
    let mut save_dir: Option<String> = None;
    let mut i: usize = 2;
    while i < args.len()
        invariant
            2 <= i,
            v == views(args@),
            port_flag@ == "--port"@,
            save_flag@ == "--save"@,
            serve_scan(v, 2, 8877, None) == serve_scan(
                v,
                i as int,
                port,
                match save_dir {
                    Some(d) => Some(d@),
                    None => None,
                },
            ),
        decreases args@.len() - i,
    {
        assert(v[i as int] == args@[i as int]@);
        if args[i] == port_flag && i + 1 < args.len() {
            let value = args[i + 1].as_str();
            let cs = to_chars(value);
            let n = cs.len();
            assert(cs@.subrange(0, n as int) =~= cs@);
            assert(v[i + 1] == args@[i + 1]@);
            match parse_unsigned_range(&cs, 0, n, 65535) {
                Some(p) => {
                    port = p as u16;
                },
                None => {
                    return Err(CliError::InvalidPort(args[i + 1].clone()));
                },
            }
            i = i + 2;
        } else if args[i] == save_flag && i + 1 < args.len() {
            assert(v[i + 1] == args@[i + 1]@);
            save_dir = Some(args[i + 1].clone());
            i = i + 2;
        } else {
            i = i + 1;
        }
    }
    Ok(ServeOptions { port, save_dir })
}

} // verus!
