use vstd::prelude::*;

verus! {

/// What the command line asked for.
#[derive(Debug)]
pub struct ArgConfig {
    pub help: bool,
    pub version: bool,
    pub interactive: bool,
    pub test: bool,
    pub file: Option<String>,
}

impl ArgConfig {
    /// Nothing asked for yet.
    pub fn new() -> (r: ArgConfig)
        ensures
            !r.help,
            !r.version,
            !r.interactive,
            !r.test,
            r.file is None,
    {
        ArgConfig { help: false, version: false, interactive: false, test: false, file: None }
    }
}

/// The argument reader's state: the flags gathered so far and whether the
/// next argument has been claimed as the file name.
pub struct ArgsState {
    pub help: bool,
    pub version: bool,
    pub interactive: bool,
    pub test: bool,
    pub file: Option<Seq<char>>,
    pub pending_file: bool,
}

pub open spec fn args_initial() -> ArgsState {
    ArgsState {
        help: false,
        version: false,
        interactive: false,
        test: false,
        file: None,
        pending_file: false,
    }
}

/// One argument: an argument claimed by `-f` becomes the file; the named
/// flags set their fields; any other argument starting with `-` is unknown;
/// a bare argument is the file, of which there can be only one.
pub open spec fn args_step(st: ArgsState, a: Seq<char>) -> Result<ArgsState, Seq<char>> {
    if st.pending_file {
        Ok(ArgsState { file: Some(a), pending_file: false, ..st })
    } else if a == "-h"@ || a == "--help"@ {
        Ok(ArgsState { help: true, ..st })
    } else if a == "-v"@ || a == "--version"@ {
        Ok(ArgsState { version: true, ..st })
    } else if a == "-f"@ || a == "--file"@ {
        Ok(ArgsState { pending_file: true, ..st })
    } else if a == "-i"@ || a == "--interactive"@ {
        Ok(ArgsState { interactive: true, ..st })
    } else if a == "-t"@ || a == "--test"@ {
        Ok(ArgsState { test: true, ..st })
    } else if a.len() > 0 && a[0] == '-' {
        Err("Unknown argument: "@ + a)
    } else if st.file is Some {
        Err("Only one file can be specified."@)
    } else {
        Ok(ArgsState { file: Some(a), pending_file: false, ..st })
    }
}

pub open spec fn args_fold(st: ArgsState, args: Seq<Seq<char>>) -> Result<ArgsState, Seq<char>>
    decreases args.len(),
{
    if args.len() == 0 {
        Ok(st)
    } else {
        match args_step(st, args.first()) {
            Ok(st2) => args_fold(st2, args.drop_first()),
            Err(e) => Err(e),
        }
    }
}

/// What reading a whole argument list yields.
pub open spec fn parse_args_spec(args: Seq<Seq<char>>) -> Result<ArgsState, Seq<char>> {
    args_fold(args_initial(), args)
}

pub open spec fn strs_view(args: Seq<String>) -> Seq<Seq<char>> {
    args.map_values(|a: String| a@)
}

pub open spec fn file_view(f: &Option<String>) -> Option<Seq<char>> {
    match f {
        Some(s) => Some(s@),
        None => None,
    }
}

/// Reads the command line into a configuration, left to right; a trailing
/// `-f` with no following argument is dropped, as the fold's final state
/// discards the pending claim.
pub fn parse_args(args: &Vec<String>) -> (r: Result<ArgConfig, String>)
    ensures
        match r {
            Ok(cfg) => parse_args_spec(strs_view(args@)) matches Ok(m) && cfg.help == m.help
                && cfg.version == m.version && cfg.interactive == m.interactive && cfg.test
                == m.test && file_view(&cfg.file) == m.file,
            Err(msg) => parse_args_spec(strs_view(args@)) matches Err(e) && msg@ == e,
        },
{
    let flag_h = "-h".to_owned();
    let flag_help = "--help".to_owned();
    let flag_v = "-v".to_owned();
    let flag_version = "--version".to_owned();
    let flag_f = "-f".to_owned();
    let flag_file = "--file".to_owned();
    let flag_i = "-i".to_owned();
    let flag_interactive = "--interactive".to_owned();
    let flag_t = "-t".to_owned();
    let flag_test = "--test".to_owned();
    let ghost views = strs_view(args@);
    let mut cfg = ArgConfig::new();
    let mut pending_file = false;
    let n = args.len();
    let mut i: usize = 0;
    proof {
        assert(views.skip(0) =~= views);
        assert(ArgsState {
            help: cfg.help,
            version: cfg.version,
            interactive: cfg.interactive,
            test: cfg.test,
            file: file_view(&cfg.file),
            pending_file: pending_file,
        } == args_initial());
    }
    while i < n
        invariant
            0 <= i <= n,
            n == args.len(),
            views == strs_view(args@),
            views.len() == n,
            forall|j: int| 0 <= j < n ==> #[trigger] views[j] == args@[j]@,
            flag_h@ == "-h"@,
            flag_help@ == "--help"@,
            flag_v@ == "-v"@,
            flag_version@ == "--version"@,
            flag_f@ == "-f"@,
            flag_file@ == "--file"@,
            flag_i@ == "-i"@,
            flag_interactive@ == "--interactive"@,
            flag_t@ == "-t"@,
            flag_test@ == "--test"@,
            args_fold(args_initial(), views) == args_fold(
                ArgsState {
                    help: cfg.help,
                    version: cfg.version,
                    interactive: cfg.interactive,
                    test: cfg.test,
                    file: file_view(&cfg.file),
                    pending_file: pending_file,
                },
                views.skip(i as int),
            ),
        decreases n - i,
    {
        let ghost st0 = ArgsState {
            help: cfg.help,
            version: cfg.version,
            interactive: cfg.interactive,
            test: cfg.test,
            file: file_view(&cfg.file),
            pending_file: pending_file,
        };
        let ghost rem = views.skip(i as int);
        proof {
            assert(rem.first() == views[i as int]);
            assert(rem.drop_first() =~= views.skip(i + 1));
        }
        let arg = &args[i];
        if pending_file {
            cfg.file = Some(arg.clone());
            pending_file = false;
        } else if arg.eq(&flag_h) || arg.eq(&flag_help) {
            cfg.help = true;
        } else if arg.eq(&flag_v) || arg.eq(&flag_version) {
            cfg.version = true;
        } else if arg.eq(&flag_f) || arg.eq(&flag_file) {
            pending_file = true;
        } else if arg.eq(&flag_i) || arg.eq(&flag_interactive) {
            cfg.interactive = true;
        } else if arg.eq(&flag_t) || arg.eq(&flag_test) {
            cfg.test = true;
        } else {
            let cs = crate::text::chars_of(arg.as_str());
            let dash = cs.len() > 0 && cs[0] == '-';
            if dash {
                let mut msg = "Unknown argument: ".to_owned();
                msg.append(arg.as_str());
                return Err(msg);
            }
            if cfg.file.is_some() {
                return Err("Only one file can be specified.".to_owned());
            }
            cfg.file = Some(arg.clone());
        }
        i = i + 1;
    }
    proof {
        assert(views.skip(n as int).len() == 0);
    }
    Ok(cfg)
}

} // verus!
