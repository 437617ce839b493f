//! The command line.

use vstd::prelude::*;
use vstd::string::*;

use crate::affinity::opt_chars;
use crate::config::opt_view;
use crate::text;

verus! {

pub const DEFAULT_ADDR: &'static str = "127.0.0.1:11435";

/// The threshold of `--usage-aware` where none is given, in percent.
pub const DEFAULT_USAGE_AWARE: u32 = 80;

/// How many requests may wait for one key.
pub const WAITER_CAP: u32 = 32;

/// How the proxy is to run.
#[derive(Debug)]
pub struct Config {
    pub addr: String,
    pub keys_path: Option<String>,
    pub verbose: bool,
    /// Quota-aware routing threshold in percent; absent if that is off.
    pub usage_aware: Option<u32>,
    /// Whether prompt-cache affinity is on.
    pub affinity: bool,
}

/// What the command line asks for.
#[derive(Debug)]
pub enum Command {
    Help,
    Version,
    Run(Config),
}

#[verifier::ext_equal]
pub struct ConfigView {
    pub addr: Seq<char>,
    pub keys_path: Option<Seq<char>>,
    pub verbose: bool,
    pub usage_aware: Option<int>,
    pub affinity: bool,
}

#[verifier::ext_equal]
pub enum CommandView {
    Help,
    Version,
    Run(ConfigView),
}

impl View for Config {
    type V = ConfigView;

    open spec fn view(&self) -> ConfigView {
        ConfigView {
            addr: self.addr@,
            keys_path: opt_chars(self.keys_path),
            verbose: self.verbose,
            usage_aware: match self.usage_aware {
                Some(pct) => Some(pct as int),
                None => None,
            },
            affinity: self.affinity,
        }
    }
}

impl View for Command {
    type V = CommandView;

    open spec fn view(&self) -> CommandView {
        match self {
            Command::Help => CommandView::Help,
            Command::Version => CommandView::Version,
            Command::Run(cfg) => CommandView::Run(cfg@),
        }
    }
}

/// What is asked for, or what is wrong.
pub type Parsed = Result<CommandView, Seq<char>>;

pub open spec fn parsed_view(r: Result<Command, String>) -> Parsed {
    match r {
        Ok(command) => Ok(command@),
        Err(e) => Err(e@),
    }
}

/// How the proxy runs where nothing is asked for.
pub open spec fn default_config() -> ConfigView {
    ConfigView {
        addr: DEFAULT_ADDR@,
        keys_path: None,
        verbose: false,
        usage_aware: None,
        affinity: true,
    }
}

/// A long option and the value behind its equals sign; any other argument is
/// whole.
pub open spec fn flag_and_value(arg: Seq<char>) -> (Seq<char>, Option<Seq<char>>) {
    let at = text::first_of(arg, '=');
    if at < arg.len() && "--"@.is_prefix_of(arg.take(at)) {
        (arg.take(at), Some(arg.skip(at + 1)))
    } else {
        (arg, None)
    }
}

/// The percentage that `s` gives: white space around it and percent signs
/// behind it do not count, and it is 1 to 99.
pub open spec fn percentage(s: Seq<char>) -> Result<int, Seq<char>> {
    match text::unsigned_value(
        text::without_trailing(text::trimmed(s), '%'),
        u32::MAX as int,
    ) {
        Some(pct) => if pct == 0 || pct > 99 {
            Err(
                "invalid --usage-aware threshold "@ + text::decimal(pct as nat)
                    + " (want 1–99: 0 would disable the feature)"@,
            )
        } else {
            Ok(pct)
        },
        None => Err(
            "invalid --usage-aware threshold "@ + text::debug_form(s) + " (want 1–99)"@,
        ),
    }
}

/// What `args` ask for, from `cfg` on.
pub open spec fn parse_from(args: Seq<Seq<char>>, cfg: ConfigView) -> Parsed
    decreases args.len(),
{
    if args.len() == 0 {
        Ok(CommandView::Run(cfg))
    } else {
        let rest = args.skip(1);
        let (flag, inline) = flag_and_value(args[0]);
        if flag == "-h"@ || flag == "--help"@ {
            Ok(CommandView::Help)
        } else if flag == "-V"@ || flag == "--version"@ {
            Ok(CommandView::Version)
        } else if flag == "-a"@ || flag == "--addr"@ {
            match inline {
                Some(v) => parse_from(rest, ConfigView { addr: v, ..cfg }),
                None => if rest.len() == 0 {
                    Err("missing value for "@ + flag)
                } else {
                    parse_from(rest.skip(1), ConfigView { addr: rest[0], ..cfg })
                },
            }
        } else if flag == "-k"@ || flag == "--keys"@ {
            match inline {
                Some(v) => parse_from(rest, ConfigView { keys_path: Some(v), ..cfg }),
                None => if rest.len() == 0 {
                    Err("missing value for "@ + flag)
                } else {
                    parse_from(rest.skip(1), ConfigView { keys_path: Some(rest[0]), ..cfg })
                },
            }
        } else if flag == "-v"@ || flag == "--verbose"@ {
            parse_from(rest, ConfigView { verbose: true, ..cfg })
        } else if flag == "--no-affinity"@ {
            parse_from(rest, ConfigView { affinity: false, ..cfg })
        } else if flag == "--usage-aware"@ {
            match inline {
                Some(v) => match percentage(v) {
                    Ok(pct) => parse_from(rest, ConfigView { usage_aware: Some(pct), ..cfg }),
                    Err(e) => Err(e),
                },
                None => if rest.len() > 0 && text::unsigned_value(
                    rest[0],
                    u32::MAX as int,
                ) is Some {
                    match percentage(rest[0]) {
                        Ok(pct) => parse_from(
                            rest.skip(1),
                            ConfigView { usage_aware: Some(pct), ..cfg },
                        ),
                        Err(e) => Err(e),
                    }
                } else {
                    parse_from(
                        rest,
                        ConfigView { usage_aware: Some(DEFAULT_USAGE_AWARE as int), ..cfg },
                    )
                },
            }
        } else {
            Err("unknown argument: "@ + text::debug_form(args[0]))
        }
    }
}

/// The value of the variable that turns affinity off does so.
pub open spec fn turns_off(v: Option<Seq<char>>) -> bool {
    match v {
        Some(v) => v.len() > 0 && v != "0"@ && v != "false"@,
        None => false,
    }
}

/// `cfg` with what the environment says: the threshold only where the command
/// line gives none.
pub open spec fn with_environment(
    cfg: ConfigView,
    usage_aware: Option<Seq<char>>,
    no_affinity: Option<Seq<char>>,
) -> Parsed {
    let done = ConfigView { affinity: cfg.affinity && !turns_off(no_affinity), ..cfg };
    if cfg.usage_aware is None && usage_aware is Some && usage_aware->0.len() > 0 {
        match percentage(usage_aware->0) {
            Ok(pct) => Ok(CommandView::Run(ConfigView { usage_aware: Some(pct), ..done })),
            Err(e) => Err(e),
        }
    } else {
        Ok(CommandView::Run(done))
    }
}

/// What the command line and the environment ask for.
pub open spec fn parsed(
    args: Seq<Seq<char>>,
    usage_aware: Option<Seq<char>>,
    no_affinity: Option<Seq<char>>,
) -> Parsed {
    match parse_from(args, default_config()) {
        Ok(CommandView::Run(cfg)) => with_environment(cfg, usage_aware, no_affinity),
        other => other,
    }
}

/// Splits a long option from its value.
fn split_kv(arg: &str) -> (r: (String, Option<String>))
    ensures
        (r.0@, opt_chars(r.1)) == flag_and_value(arg@),
{
    if let Some(at) = text::find(arg, '=') {
        let cs = text::chars_of(arg);
        let n: usize = cs.len();
        let flag = text::string_of(&cs, 0, at);
        let value = text::string_of(&cs, at + 1, n);
        assert(flag@ =~= arg@.take(at as int));
        assert(value@ =~= arg@.skip(at + 1));
        if text::starts_with(flag.as_str(), "--") {
            return (flag, Some(value));
        }
    }
    (arg.to_owned(), None)
}

/// A threshold in percent.
pub fn parse_pct(s: &str) -> (r: Result<u32, String>)
    ensures
        match r {
            Ok(pct) => percentage(s@) == Ok::<int, Seq<char>>(pct as int),
            Err(e) => percentage(s@) == Err::<int, Seq<char>>(e@),
        },
        r matches Ok(pct) ==> 1 <= pct <= 99,
{
    let trimmed = text::strip_trailing(text::trim(s), '%');
    match text::parse_unsigned(trimmed, u32::MAX as u64) {
        Some(pct) => {
            if pct == 0 || pct > 99 {
                let mut e = "invalid --usage-aware threshold ".to_owned();
                e.append(text::to_decimal(pct).as_str());
                e.append(" (want 1–99: 0 would disable the feature)");
                return Err(e);
            }
            Ok(pct as u32)
        },
        None => {
            let mut e = "invalid --usage-aware threshold ".to_owned();
            e.append(text::debug_quote(s).as_str());
            e.append(" (want 1–99)");
            Err(e)
        },
    }
}

/// `what` followed by `of`.
fn complaint(what: &str, of: &str) -> (r: String)
    ensures
        r@ == what@ + of@,
{
    let mut s = what.to_owned();
    s.append(of);
    s
}

/// What the arguments and the environment ask for: `usage_aware` and
/// `no_affinity` are the values of `OLLAMUX_USAGE_AWARE` and
/// `OLLAMUX_NO_AFFINITY`.
pub fn parse_args(
    args: &Vec<String>,
    usage_aware: Option<&str>,
    no_affinity: Option<&str>,
) -> (r: Result<Command, String>)
    ensures
        parsed_view(r) == parsed(text::views(args@), opt_view(usage_aware), opt_view(no_affinity)),
{
    let ghost all = text::views(args@);
    let mut cfg = Config {
        addr: DEFAULT_ADDR.to_owned(),
        keys_path: None,
        verbose: false,
        usage_aware: None,
        affinity: true,
    };
    let mut i: usize = 0;
    assert(all.skip(0) =~= all);
    assert(cfg@ =~= default_config());
    while i < args.len()
        invariant
            all == text::views(args@),
            i <= args@.len(),
            parse_from(all.skip(i as int), cfg@) == parse_from(all, default_config()),
        decreases args@.len() - i,
    {
        let ghost here = all.skip(i as int);
        proof {
            assert(here[0] == args@[i as int]@);
            assert(here.skip(1) =~= all.skip(i + 1));
            if i + 1 < args@.len() {
                assert(all.skip(i + 1)[0] == args@[i + 1]@);
                assert(all.skip(i + 1).skip(1) =~= all.skip(i + 2));
            }
        }
        let arg = args[i].as_str();
        i = i + 1;
        let (flag, inline) = split_kv(arg);
        let f = flag.as_str();
        if text::same(f, "-h") || text::same(f, "--help") {
            return Ok(Command::Help);
        }
        if text::same(f, "-V") || text::same(f, "--version") {
            return Ok(Command::Version);
        }
        if text::same(f, "-a") || text::same(f, "--addr") {
            match inline {
                Some(v) => {
                    cfg.addr = v;
                },
                None => {
                    if i >= args.len() {
                        return Err(complaint("missing value for ", f));
                    }
                    cfg.addr = args[i].clone();
                    i = i + 1;
                },
            }
        } else if text::same(f, "-k") || text::same(f, "--keys") {
            match inline {
                Some(v) => {
                    cfg.keys_path = Some(v);
                },
                None => {
                    if i >= args.len() {
                        return Err(complaint("missing value for ", f));
                    }
                    cfg.keys_path = Some(args[i].clone());
                    i = i + 1;
                },
            }
        } else if text::same(f, "-v") || text::same(f, "--verbose") {
            cfg.verbose = true;
        } else if text::same(f, "--no-affinity") {
            cfg.affinity = false;
        } else if text::same(f, "--usage-aware") {
            match inline {
                Some(v) => {
                    match parse_pct(v.as_str()) {
                        Ok(pct) => {
                            cfg.usage_aware = Some(pct);
                        },
                        Err(e) => {
                            return Err(e);
                        },
                    }
                },
                None => {
                    if i < args.len() && text::parse_unsigned(
                        args[i].as_str(),
                        u32::MAX as u64,
                    ).is_some() {
                        match parse_pct(args[i].as_str()) {
                            Ok(pct) => {
                                cfg.usage_aware = Some(pct);
                            },
                            Err(e) => {
                                return Err(e);
                            },
                        }
                        i = i + 1;
                    } else {
                        cfg.usage_aware = Some(DEFAULT_USAGE_AWARE);
                    }
                },
            }
        } else {
            return Err(complaint("unknown argument: ", text::debug_quote(arg).as_str()));
        }
    }
    assert(all.skip(i as int) =~= seq![]);
    if disables(no_affinity) {
        cfg.affinity = false;
    }
    if cfg.usage_aware.is_none() {
        if let Some(raw) = usage_aware {
            if raw.unicode_len() > 0 {
                match parse_pct(raw) {
                    Ok(pct) => {
                        cfg.usage_aware = Some(pct);
                    },
                    Err(e) => {
                        return Err(e);
                    },
                }
            }
        }
    }
    Ok(Command::Run(cfg))
}

/// Whether the value of the variable turns affinity off.
fn disables(v: Option<&str>) -> (r: bool)
    ensures
        r == turns_off(opt_view(v)),
{
    match v {
        Some(v) => v.unicode_len() > 0 && !text::same(v, "0") && !text::same(v, "false"),
        None => false,
    }
}

// ---------------------------------------------------------------------------
// Laws
// ---------------------------------------------------------------------------

/// The variable turns affinity off on its own, and never on.
pub proof fn law_environment_turns_affinity_off(
    args: Seq<Seq<char>>,
    usage_aware: Option<Seq<char>>,
    no_affinity: Option<Seq<char>>,
)
    requires
        turns_off(no_affinity),
    ensures
        parsed(args, usage_aware, no_affinity) matches Ok(CommandView::Run(cfg)) ==> !cfg.affinity,
{
}

/// A threshold on the command line wins over the environment.
pub proof fn law_flag_wins(
    args: Seq<Seq<char>>,
    usage_aware: Option<Seq<char>>,
    no_affinity: Option<Seq<char>>,
    pct: int,
)
    requires
        parse_from(args, default_config()) matches Ok(CommandView::Run(cfg)) && cfg.usage_aware
            == Some(pct),
    ensures
        parsed(args, usage_aware, no_affinity) matches Ok(CommandView::Run(cfg))
            && cfg.usage_aware == Some(pct),
{
}

/// No threshold, or one between 1 and 99.
pub open spec fn sane(threshold: Option<int>) -> bool {
    threshold matches Some(pct) ==> 1 <= pct <= 99
}

/// A threshold that is taken lies between 1 and 99: it is never one that turns
/// the feature off, nor one that no key can reach.
pub proof fn law_threshold_is_sane(args: Seq<Seq<char>>, cfg: ConfigView)
    requires
        sane(cfg.usage_aware),
    ensures
        parse_from(args, cfg) matches Ok(CommandView::Run(c)) ==> sane(c.usage_aware),
    decreases args.len(),
{
    if args.len() > 0 {
        let rest = args.skip(1);
        let (flag, inline) = flag_and_value(args[0]);
        let next = rest.skip(1);
        lemma_percentage(inline);
        if let Some(v) = inline {
            law_threshold_is_sane(rest, ConfigView { addr: v, ..cfg });
            law_threshold_is_sane(rest, ConfigView { keys_path: Some(v), ..cfg });
            if let Ok(pct) = percentage(v) {
                law_threshold_is_sane(rest, ConfigView { usage_aware: Some(pct), ..cfg });
            }
        } else {
            law_threshold_is_sane(
                rest,
                ConfigView { usage_aware: Some(DEFAULT_USAGE_AWARE as int), ..cfg },
            );
            if rest.len() > 0 {
                lemma_percentage(Some(rest[0]));
                law_threshold_is_sane(next, ConfigView { addr: rest[0], ..cfg });
                law_threshold_is_sane(next, ConfigView { keys_path: Some(rest[0]), ..cfg });
                if let Ok(pct) = percentage(rest[0]) {
                    law_threshold_is_sane(next, ConfigView { usage_aware: Some(pct), ..cfg });
                }
            }
        }
        law_threshold_is_sane(rest, ConfigView { verbose: true, ..cfg });
        law_threshold_is_sane(rest, ConfigView { affinity: false, ..cfg });
    }
}

proof fn lemma_percentage(s: Option<Seq<char>>)
    ensures
        s matches Some(s) ==> (percentage(s) matches Ok(pct) ==> sane(Some(pct))),
{
    if let Some(s) = s {
        text::law_unsigned_value(
            text::without_trailing(text::trimmed(s), '%'),
            u32::MAX as int,
        );
    }
}

/// A flag that takes no value, and is written without an equals sign.
proof fn lemma_bare(arg: Seq<char>)
    requires
        !arg.contains('='),
    ensures
        flag_and_value(arg) == (arg, None::<Seq<char>>),
{
    text::law_first_is_first(arg, '=');
    let at = text::first_of(arg, '=');
    if at < arg.len() {
        assert(arg.contains(arg[at]));
    }
}

/// A long option with a value behind its equals sign is split there.
proof fn lemma_inline(flag: Seq<char>, v: Seq<char>)
    requires
        "--"@.is_prefix_of(flag),
        !flag.contains('='),
    ensures
        flag_and_value(flag + seq!['='] + v) == (flag, Some(v)),
{
    let arg = flag + seq!['='] + v;
    let n = flag.len() as int;
    assert forall|i: int| 0 <= i < n implies #[trigger] arg[i] != '=' by {
        assert(arg[i] == flag[i]);
        assert(flag.contains(flag[i]));
    }
    assert(arg[n] == '=');
    text::lemma_first_of(arg, '=', n);
    assert(arg.take(n) =~= flag);
    assert(arg.skip(n + 1) =~= v);
}

proof fn lemma_flags()
    ensures
        "-h"@ == seq!['-', 'h'],
        "-V"@ == seq!['-', 'V'],
        "-a"@ == seq!['-', 'a'],
        "-k"@ == seq!['-', 'k'],
        "-v"@ == seq!['-', 'v'],
        "--"@ == seq!['-', '-'],
        "--help"@ == seq!['-', '-', 'h', 'e', 'l', 'p'],
        "--addr"@ == seq!['-', '-', 'a', 'd', 'd', 'r'],
        "--keys"@ == seq!['-', '-', 'k', 'e', 'y', 's'],
        "--version"@ == seq!['-', '-', 'v', 'e', 'r', 's', 'i', 'o', 'n'],
        "--verbose"@ == seq!['-', '-', 'v', 'e', 'r', 'b', 'o', 's', 'e'],
        "--no-affinity"@ == seq!['-', '-', 'n', 'o', '-', 'a', 'f', 'f', 'i', 'n', 'i', 't', 'y'],
        "--usage-aware"@ == seq!['-', '-', 'u', 's', 'a', 'g', 'e', '-', 'a', 'w', 'a', 'r', 'e'],
{
    reveal_strlit("-h");
    reveal_strlit("-V");
    reveal_strlit("-a");
    reveal_strlit("-k");
    reveal_strlit("-v");
    reveal_strlit("--");
    reveal_strlit("--help");
    reveal_strlit("--addr");
    reveal_strlit("--keys");
    reveal_strlit("--version");
    reveal_strlit("--verbose");
    reveal_strlit("--no-affinity");
    reveal_strlit("--usage-aware");
    assert("-h"@ =~= seq!['-', 'h']);
    assert("-V"@ =~= seq!['-', 'V']);
    assert("-a"@ =~= seq!['-', 'a']);
    assert("-k"@ =~= seq!['-', 'k']);
    assert("-v"@ =~= seq!['-', 'v']);
    assert("--"@ =~= seq!['-', '-']);
    assert("--help"@ =~= seq!['-', '-', 'h', 'e', 'l', 'p']);
    assert("--addr"@ =~= seq!['-', '-', 'a', 'd', 'd', 'r']);
    assert("--keys"@ =~= seq!['-', '-', 'k', 'e', 'y', 's']);
    assert("--version"@ =~= seq!['-', '-', 'v', 'e', 'r', 's', 'i', 'o', 'n']);
    assert("--verbose"@ =~= seq!['-', '-', 'v', 'e', 'r', 'b', 'o', 's', 'e']);
    assert("--no-affinity"@ =~= seq![
        '-',
        '-',
        'n',
        'o',
        '-',
        'a',
        'f',
        'f',
        'i',
        'n',
        'i',
        't',
        'y',
    ]);
    assert("--usage-aware"@ =~= seq![
        '-',
        '-',
        'u',
        's',
        'a',
        'g',
        'e',
        '-',
        'a',
        'w',
        'a',
        'r',
        'e',
    ]);
}

proof fn lemma_first_argument(first: Seq<char>, rest: Seq<Seq<char>>)
    ensures
        (seq![first] + rest).len() == rest.len() + 1,
        (seq![first] + rest)[0] == first,
        (seq![first] + rest).skip(1) == rest,
{
    assert((seq![first] + rest).skip(1) =~= rest);
}

proof fn lemma_two_arguments(first: Seq<char>, v: Seq<char>, rest: Seq<Seq<char>>)
    ensures
        (seq![first, v] + rest).len() == rest.len() + 2,
        (seq![first, v] + rest)[0] == first,
        (seq![first, v] + rest).skip(1).len() == rest.len() + 1,
        (seq![first, v] + rest).skip(1)[0] == v,
        (seq![first, v] + rest).skip(1).skip(1) == rest,
{
    assert((seq![first, v] + rest).skip(1).skip(1) =~= rest);
}

/// Flags without a value say one thing each, under either name, and leave the
/// rest of the command line as it is.
pub proof fn law_plain_flags(rest: Seq<Seq<char>>, cfg: ConfigView)
    ensures
        parse_from(seq![], cfg) == Ok::<CommandView, Seq<char>>(CommandView::Run(cfg)),
        parse_from(seq!["-v"@] + rest, cfg) == parse_from(
            rest,
            ConfigView { verbose: true, ..cfg },
        ),
        parse_from(seq!["--verbose"@] + rest, cfg) == parse_from(
            rest,
            ConfigView { verbose: true, ..cfg },
        ),
        parse_from(seq!["--no-affinity"@] + rest, cfg) == parse_from(
            rest,
            ConfigView { affinity: false, ..cfg },
        ),
        parse_from(seq!["-h"@] + rest, cfg) == Ok::<CommandView, Seq<char>>(CommandView::Help),
        parse_from(seq!["--help"@] + rest, cfg) == Ok::<CommandView, Seq<char>>(
            CommandView::Help,
        ),
        parse_from(seq!["-V"@] + rest, cfg) == Ok::<CommandView, Seq<char>>(
            CommandView::Version,
        ),
        parse_from(seq!["--version"@] + rest, cfg) == Ok::<CommandView, Seq<char>>(
            CommandView::Version,
        ),
{
    lemma_flags();
    lemma_bare("-v"@);
    lemma_bare("--verbose"@);
    lemma_bare("--no-affinity"@);
    lemma_bare("-h"@);
    lemma_bare("--help"@);
    lemma_bare("-V"@);
    lemma_bare("--version"@);
    lemma_first_argument("-v"@, rest);
    lemma_first_argument("--verbose"@, rest);
    lemma_first_argument("--no-affinity"@, rest);
    lemma_first_argument("-h"@, rest);
    lemma_first_argument("--help"@, rest);
    lemma_first_argument("-V"@, rest);
    lemma_first_argument("--version"@, rest);
    assert("-v"@[1] == 'v');
    assert("--verbose"@[2] == 'v' && "--verbose"@[5] == 'b');
    assert("--version"@[2] == 'v' && "--version"@[5] == 's');
    assert("--no-affinity"@[2] == 'n');
    assert("-h"@[1] == 'h' && "-V"@[1] == 'V' && "-a"@[1] == 'a' && "-k"@[1] == 'k');
    assert("--help"@[2] == 'h' && "--addr"@[2] == 'a' && "--keys"@[2] == 'k');
}

/// The address and the keys file are what stands behind their flag, as the next
/// argument or behind an equals sign; without either there is an error.
pub proof fn law_flags_with_a_value(v: Seq<char>, rest: Seq<Seq<char>>, cfg: ConfigView)
    ensures
        parse_from(seq!["-a"@, v] + rest, cfg) == parse_from(rest, ConfigView { addr: v, ..cfg }),
        parse_from(seq!["--addr"@, v] + rest, cfg) == parse_from(
            rest,
            ConfigView { addr: v, ..cfg },
        ),
        parse_from(seq!["--addr"@ + seq!['='] + v] + rest, cfg) == parse_from(
            rest,
            ConfigView { addr: v, ..cfg },
        ),
        parse_from(seq!["-k"@, v] + rest, cfg) == parse_from(
            rest,
            ConfigView { keys_path: Some(v), ..cfg },
        ),
        parse_from(seq!["--keys"@, v] + rest, cfg) == parse_from(
            rest,
            ConfigView { keys_path: Some(v), ..cfg },
        ),
        parse_from(seq!["--keys"@ + seq!['='] + v] + rest, cfg) == parse_from(
            rest,
            ConfigView { keys_path: Some(v), ..cfg },
        ),
        parse_from(seq!["-a"@], cfg) is Err,
        parse_from(seq!["--addr"@], cfg) is Err,
        parse_from(seq!["-k"@], cfg) is Err,
        parse_from(seq!["--keys"@], cfg) is Err,
{
    lemma_flags();
    lemma_bare("-a"@);
    lemma_bare("--addr"@);
    lemma_bare("-k"@);
    lemma_bare("--keys"@);
    assert("--"@ =~= "--addr"@.take(2));
    assert("--"@ =~= "--keys"@.take(2));
    lemma_inline("--addr"@, v);
    lemma_inline("--keys"@, v);
    lemma_two_arguments("-a"@, v, rest);
    lemma_two_arguments("--addr"@, v, rest);
    lemma_two_arguments("-k"@, v, rest);
    lemma_two_arguments("--keys"@, v, rest);
    lemma_first_argument("--addr"@ + seq!['='] + v, rest);
    lemma_first_argument("--keys"@ + seq!['='] + v, rest);
    assert("-h"@[1] == 'h' && "-V"@[1] == 'V' && "-a"@[1] == 'a' && "-k"@[1] == 'k');
    assert("--help"@[2] == 'h' && "--addr"@[2] == 'a' && "--keys"@[2] == 'k');
    assert(seq!["-a"@].skip(1) =~= seq![]);
    assert(seq!["--addr"@].skip(1) =~= seq![]);
    assert(seq!["-k"@].skip(1) =~= seq![]);
    assert(seq!["--keys"@].skip(1) =~= seq![]);
}

/// A threshold is a whole percentage between 1 and 99, with or without a
/// percent sign and white space around it; anything else is refused.
pub proof fn law_thresholds_are_percentages(n: nat, a: Seq<char>, b: Seq<char>)
    requires
        forall|i: int| 0 <= i < a.len() ==> text::is_white(#[trigger] a[i]),
        forall|i: int| 0 <= i < b.len() ==> text::is_white(#[trigger] b[i]),
    ensures
        1 <= n <= 99 ==> percentage(a + text::decimal(n) + b) == Ok::<int, Seq<char>>(n as int),
        1 <= n <= 99 ==> percentage(text::decimal(n) + seq!['%']) == Ok::<int, Seq<char>>(
            n as int,
        ),
        n == 0 || n > 99 ==> percentage(a + text::decimal(n) + b) is Err,
        n == 0 || n > 99 ==> percentage(text::decimal(n) + seq!['%']) is Err,
{
    let d = text::decimal(n);
    text::law_decimal_reads_back(n);
    text::law_decimal_is_trim(n);
    text::law_white_around_is_ignored(a, d, b);
    assert(text::is_digit(d.last()));
    text::law_trailing_are_dropped(d, 0, '%');
    assert(d + Seq::new(0, |i: int| '%') =~= d);
    let p = d + seq!['%'];
    assert(text::is_digit(d[0]));
    assert(p[0] == d[0] && p.last() == '%');
    text::law_trim_text_is_kept(p);
    text::law_trailing_are_dropped(d, 1, '%');
    assert(d + Seq::new(1, |i: int| '%') =~= p);
}

/// Quota-aware routing is turned on with the threshold that is given, behind an
/// equals sign or as a number on its own, and with 80 where none is.
pub proof fn law_quota_aware_flag(n: nat, rest: Seq<Seq<char>>, cfg: ConfigView)
    requires
        1 <= n <= 99,
    ensures
        parse_from(seq!["--usage-aware"@ + seq!['='] + text::decimal(n)] + rest, cfg)
            == parse_from(rest, ConfigView { usage_aware: Some(n as int), ..cfg }),
        parse_from(seq!["--usage-aware"@, text::decimal(n)] + rest, cfg) == parse_from(
            rest,
            ConfigView { usage_aware: Some(n as int), ..cfg },
        ),
        rest.len() == 0 || text::unsigned_value(rest[0], u32::MAX as int) is None ==> parse_from(
            seq!["--usage-aware"@] + rest,
            cfg,
        ) == parse_from(rest, ConfigView { usage_aware: Some(80), ..cfg }),
{
    let d = text::decimal(n);
    lemma_flags();
    lemma_bare("--usage-aware"@);
    assert("--"@ =~= "--usage-aware"@.take(2));
    lemma_inline("--usage-aware"@, d);
    lemma_first_argument("--usage-aware"@ + seq!['='] + d, rest);
    lemma_two_arguments("--usage-aware"@, d, rest);
    lemma_first_argument("--usage-aware"@, rest);
    text::law_decimal_reads_back(n);
    assert(text::unsigned_value(d, u32::MAX as int) == Some(n as int));
    law_thresholds_are_percentages(n, seq![], seq![]);
    assert(Seq::<char>::empty() + d + Seq::<char>::empty() =~= d);
    assert("--usage-aware"@[2] == 'u' && "--no-affinity"@[2] == 'n');
}

/// What the environment adds: a threshold where the command line has none, and
/// no affinity for any value but the empty one, `0` and `false`.
pub proof fn law_environment_fills_in(
    cfg: ConfigView,
    usage_aware: Option<Seq<char>>,
    no_affinity: Option<Seq<char>>,
    n: nat,
)
    requires
        1 <= n <= 99,
    ensures
        ({
            let off = no_affinity is Some && no_affinity->0.len() > 0 && no_affinity->0 != "0"@
                && no_affinity->0 != "false"@;
            let done = ConfigView { affinity: cfg.affinity && !off, ..cfg };
            &&& cfg.usage_aware is Some || usage_aware is None || usage_aware->0.len() == 0
                ==> with_environment(cfg, usage_aware, no_affinity) == Ok::<
                CommandView,
                Seq<char>,
            >(CommandView::Run(done))
            &&& cfg.usage_aware is None ==> with_environment(
                cfg,
                Some(text::decimal(n)),
                no_affinity,
            ) == Ok::<CommandView, Seq<char>>(
                CommandView::Run(ConfigView { usage_aware: Some(n as int), ..done }),
            )
        }),
{
    let d = text::decimal(n);
    text::law_decimal_reads_back(n);
    law_thresholds_are_percentages(n, seq![], seq![]);
    assert(Seq::<char>::empty() + d + Seq::<char>::empty() =~= d);
}

/// Where nothing is asked for, the proxy listens on port 11435 of this machine
/// only, quietly, with affinity and without quota-aware routing.
pub proof fn law_defaults()
    ensures
        parsed(seq![], None, None) == Ok::<CommandView, Seq<char>>(
            CommandView::Run(
                ConfigView {
                    addr: "127.0.0.1:11435"@,
                    keys_path: None,
                    verbose: false,
                    usage_aware: None,
                    affinity: true,
                },
            ),
        ),
{
}

} // verus!
