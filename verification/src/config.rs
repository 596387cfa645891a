//! The command line and the settings of the environment.

use crate::redirects;
use crate::redirects::{add_redirect, ConfigError, ErrorKind, Redirects, TestRedirect};
use crate::rewrite;
use crate::text;
use crate::text::{chars_of, has_head, parse_unsigned, same, string_of, trim};
use vstd::prelude::*;
use vstd::slice::slice_subrange;

verus! {

/// The metrics port of the production service.
pub const PRODUCTION_METRICS_PORT: u16 = 5339;
/// The metrics port in test mode.
pub const TEST_METRICS_PORT: u16 = 15339;

/// How the proxy was asked to run.
pub struct RuntimeConfig {
    /// Whether it runs beside the production service, on ports of its own.
    pub test_mode: bool,
    /// The redirects of the command line.
    pub redirects: Redirects,
}

/// What the command line asks for.
pub enum Command {
    /// To show the options.
    Help,
    /// To serve.
    Run(RuntimeConfig),
}

/// What a command line means, from argument number `at` on, after `test_mode`
/// and `table` were read: the settings, `None` for the help, or the first fault
/// and the text at fault.
pub open spec fn meaning(
    args: Seq<Seq<char>>,
    at: nat,
    test_mode: bool,
    table: Map<Seq<char>, TestRedirect>,
) -> Result<Option<(bool, Map<Seq<char>, TestRedirect>)>, (ErrorKind, Seq<char>)>
    decreases args.len() - at,
{
    if at >= args.len() {
        if !test_mode && table != Map::<Seq<char>, TestRedirect>::empty() {
            Err((ErrorKind::RedirectWithoutTest, Seq::empty()))
        } else {
            Ok(Some((test_mode, table)))
        }
    } else {
        let arg = args[at as int];
        if arg == "--test"@ {
            meaning(args, at + 1, true, table)
        } else if arg == "--redirect"@ {
            if at + 1 >= args.len() {
                Err((ErrorKind::MissingRule, Seq::empty()))
            } else {
                let rule = args[at as int + 1];
                match redirects::rule_fault(rule) {
                    Some(fault) => Err(fault),
                    None => meaning(args, at + 2, test_mode, redirects::table_with(table, rule)),
                }
            }
        } else if arg == "--help"@ || arg == "-h"@ {
            Ok(None)
        } else if text::starts_with(arg, "--redirect="@) {
            let rule = arg.skip("--redirect="@.len() as int);
            match redirects::rule_fault(rule) {
                Some(fault) => Err(fault),
                None => meaning(args, at + 1, test_mode, redirects::table_with(table, rule)),
            }
        } else {
            Err((ErrorKind::UnknownArgument, arg))
        }
    }
}

/// The texts of the arguments.
pub open spec fn arg_texts(args: Seq<String>) -> Seq<Seq<char>> {
    Seq::new(args.len(), |i: int| args[i]@)
}

/// What the whole command line means.
pub open spec fn meaning_of(args: Seq<String>) -> Result<
    Option<(bool, Map<Seq<char>, TestRedirect>)>,
    (ErrorKind, Seq<char>),
> {
    meaning(arg_texts(args), 0, false, Map::empty())
}

fn is_word(arg: &[char], word: &str) -> (answer: bool)
    ensures
        answer == (arg@ == word@),
{
    let chars: Vec<char> = chars_of(word);
    same(arg, chars.as_slice())
}

fn no_text() -> (s: String)
    ensures
        s@ == Seq::<char>::empty(),
{
    String::new()
}

impl RuntimeConfig {
    /// Reads the arguments behind the name of the program, in their order, up to
    /// the first fault or the first call for help.
    pub fn parse(args: &Vec<String>) -> (command: Result<Command, ConfigError>)
        ensures
            match command {
                Ok(Command::Help) => meaning_of(args@) == Ok::<
                    Option<(bool, Map<Seq<char>, TestRedirect>)>,
                    (ErrorKind, Seq<char>),
                >(None),
                Ok(Command::Run(config)) => {
                    &&& config.redirects.wf()
                    &&& meaning_of(args@) == Ok::<
                        Option<(bool, Map<Seq<char>, TestRedirect>)>,
                        (ErrorKind, Seq<char>),
                    >(Some((config.test_mode, config.redirects@)))
                },
                Err(error) => meaning_of(args@) matches Err((kind, text)) && error.says(kind, text),
            },
    {
        let mut test_mode: bool = false;
        let mut redirects: Redirects = Redirects::new();
        let mut at: usize = 0;
        let ghost words = arg_texts(args@);
        while at < args.len()
            invariant
                at <= args@.len(),
                words == arg_texts(args@),
                redirects.wf(),
                meaning_of(args@) == meaning(words, at as nat, test_mode, redirects@),
            decreases args@.len() - at,
        {
            let chars: Vec<char> = chars_of(args[at].as_str());
            let arg: &[char] = chars.as_slice();
            assert(words[at as int] == arg@);
            if is_word(arg, "--test") {
                test_mode = true;
                at = at + 1;
            } else if is_word(arg, "--redirect") {
                if args.len() - at < 2 {
                    return Err(ConfigError { kind: ErrorKind::MissingRule, text: no_text() });
                }
                assert(words[at + 1] == args@[at + 1]@);
                match add_redirect(&mut redirects, args[at + 1].as_str()) {
                    Ok(()) => {},
                    Err(error) => {
                        return Err(error);
                    },
                }
                at = at + 2;
            } else if is_word(arg, "--help") || is_word(arg, "-h") {
                return Ok(Command::Help);
            } else {
                let head: Vec<char> = chars_of("--redirect=");
                if !has_head(arg, head.as_slice()) {
                    return Err(
                        ConfigError { kind: ErrorKind::UnknownArgument, text: string_of(arg) },
                    );
                }
                let rule: String = string_of(slice_subrange(arg, head.len(), arg.len()));
                assert(rule@ =~= arg@.skip("--redirect="@.len() as int));
                match add_redirect(&mut redirects, rule.as_str()) {
                    Ok(()) => {},
                    Err(error) => {
                        return Err(error);
                    },
                }
                at = at + 1;
            }
        }
        if !test_mode && !redirects.is_empty() {
            return Err(ConfigError { kind: ErrorKind::RedirectWithoutTest, text: no_text() });
        }
        Ok(Command::Run(RuntimeConfig { test_mode, redirects }))
    }

    /// The ports to listen on, each with the port of its upstream resolver.
    pub fn port_pairs(&self) -> (pairs: [(u16, u16); 2])
        ensures
            self.test_mode ==> pairs@ == seq![(15335u16, 5336u16), (15337u16, 5338u16)],
            !self.test_mode ==> pairs@ == seq![(5335u16, 5336u16), (5337u16, 5338u16)],
    {
        if self.test_mode {
            [(15335, 5336), (15337, 5338)]
        } else {
            [(5335, 5336), (5337, 5338)]
        }
    }

    /// The port that the metrics are served on.
    pub fn metrics_port(&self) -> (port: u16)
        ensures
            port == (if self.test_mode {
                TEST_METRICS_PORT
            } else {
                PRODUCTION_METRICS_PORT
            }),
    {
        if self.test_mode {
            TEST_METRICS_PORT
        } else {
            PRODUCTION_METRICS_PORT
        }
    }
}

/// Redirects come from the command line in test mode alone.
pub proof fn law_redirects_only_in_test_mode(
    args: Seq<Seq<char>>,
    at: nat,
    test_mode: bool,
    table: Map<Seq<char>, TestRedirect>,
)
    ensures
        meaning(args, at, test_mode, table) matches Ok(Some((mode, found))) ==> mode || found
            == Map::<Seq<char>, TestRedirect>::empty(),
    decreases args.len() - at,
{
    if at < args.len() {
        let arg = args[at as int];
        if arg == "--test"@ {
            law_redirects_only_in_test_mode(args, at + 1, true, table);
        } else if arg == "--redirect"@ {
            if at + 1 < args.len() {
                law_redirects_only_in_test_mode(
                    args,
                    at + 2,
                    test_mode,
                    redirects::table_with(table, args[at as int + 1]),
                );
            }
        } else {
            law_redirects_only_in_test_mode(
                args,
                at + 1,
                test_mode,
                redirects::table_with(table, arg.skip("--redirect="@.len() as int)),
            );
        }
    }
}

/// A file that the environment may name.
#[derive(Clone, Copy, Debug, PartialEq, Eq)]
pub enum Setting {
    BlockedV4,
    BlockedV6,
    CfV4,
    CfV6,
    Stats,
    Redirects,
}

impl Setting {
    /// The environment variable that names the file.
    pub open spec fn variable_text(self) -> Seq<char> {
        match self {
            Setting::BlockedV4 => "EVADE_BLOCKED_IPV4_FILE"@,
            Setting::BlockedV6 => "EVADE_BLOCKED_IPV6_FILE"@,
            Setting::CfV4 => "EVADE_CF_IPV4_FILE"@,
            Setting::CfV6 => "EVADE_CF_IPV6_FILE"@,
            Setting::Stats => "EVADE_STATS_FILE"@,
            Setting::Redirects => "EVADE_REDIRECTS_FILE"@,
        }
    }

    /// The file where the environment names none. Test mode keeps counters of
    /// its own.
    pub open spec fn default_text(self, test_mode: bool) -> Seq<char> {
        match self {
            Setting::BlockedV4 => "/etc/unbound/blocked_ips.txt"@,
            Setting::BlockedV6 => "/etc/unbound/blocked_ipv6.txt"@,
            Setting::CfV4 => "/etc/unbound/cloudflare_official_v4.txt"@,
            Setting::CfV6 => "/etc/unbound/cloudflare_official_v6.txt"@,
            Setting::Stats => if test_mode {
                "/tmp/evade-proxy-test-stats.json"@
            } else {
                "/root/xpd-dns/scripts/evade_stats.json"@
            },
            Setting::Redirects => "/run/evade-proxy/redirects.txt"@,
        }
    }

    /// The environment variable that names the file.
    pub fn variable(self) -> (name: &'static str)
        ensures
            name@ == self.variable_text(),
    {
        match self {
            Setting::BlockedV4 => "EVADE_BLOCKED_IPV4_FILE",
            Setting::BlockedV6 => "EVADE_BLOCKED_IPV6_FILE",
            Setting::CfV4 => "EVADE_CF_IPV4_FILE",
            Setting::CfV6 => "EVADE_CF_IPV6_FILE",
            Setting::Stats => "EVADE_STATS_FILE",
            Setting::Redirects => "EVADE_REDIRECTS_FILE",
        }
    }

    /// The file where the environment names none.
    pub fn default_path(self, test_mode: bool) -> (path: &'static str)
        ensures
            path@ == self.default_text(test_mode),
    {
        match self {
            Setting::BlockedV4 => "/etc/unbound/blocked_ips.txt",
            Setting::BlockedV6 => "/etc/unbound/blocked_ipv6.txt",
            Setting::CfV4 => "/etc/unbound/cloudflare_official_v4.txt",
            Setting::CfV6 => "/etc/unbound/cloudflare_official_v6.txt",
            Setting::Stats => if test_mode {
                "/tmp/evade-proxy-test-stats.json"
            } else {
                "/root/xpd-dns/scripts/evade_stats.json"
            },
            Setting::Redirects => "/run/evade-proxy/redirects.txt",
        }
    }
}

/// The rewrite TTL that a setting gives, after trimming: the default where the
/// setting is absent or no number of 32 bits.
pub open spec fn rewrite_ttl_of(value: Option<&str>) -> nat {
    match value {
        Some(value) => match text::unsigned(text::trimmed(value@), u32::MAX as nat) {
            Some(ttl) => ttl,
            None => rewrite::DEFAULT_REWRITE_TTL as nat,
        },
        None => rewrite::DEFAULT_REWRITE_TTL as nat,
    }
}

/// Reads the rewrite TTL from the text of its setting.
pub fn rewrite_ttl_value(value: Option<&str>) -> (ttl: u32)
    ensures
        ttl == rewrite_ttl_of(value),
{
    if let Some(value) = value {
        let chars: Vec<char> = chars_of(value);
        if let Some(ttl) = parse_unsigned(trim(chars.as_slice()), u32::MAX as u64) {
            return ttl as u32;
        }
    }
    rewrite::DEFAULT_REWRITE_TTL
}

} // verus!
