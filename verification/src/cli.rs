//! Command line options.
use vstd::prelude::*;
use vstd::string::*;
use crate::text;

verus! {

/// The help text.
pub const USAGE: &'static str = "\
certik - certificate manager

USAGE:
    certik [OPTIONS]

OPTIONS:
    -H, --api-bind <IP>   Address for the HTTPS API   (default: 0.0.0.0)
    --api-port <PORT>     Port for the HTTPS API     (default: 24489)
    --tls-cert <FILE>     PEM cert chain for the API server
    --tls-key  <FILE>     PEM private key for the API server
                          (if omitted, an ephemeral self-signed
                           certificate is generated at startup)
    --cert <FILE>         Load a PEM certificate into a new set at startup
    --key  <FILE>         Load a PEM private key into a new set at startup
    --no-api              Do not start the API server
    -h, --help            Show this help
    --version             Show the version
";

/// The port of the API, unless an option says otherwise.
pub const DEFAULT_PORT: u16 = 24489;

/// What the command line asks for.
#[derive(Debug)]
pub struct Cli {
    pub bind_ip: String,
    pub api_port: u16,
    pub tls_cert: Option<String>,
    pub tls_key: Option<String>,
    pub no_api: bool,
    pub load_certs: Vec<String>,
    pub load_keys: Vec<String>,
}

/// The contents of what the command line asks for.
pub struct Options {
    pub bind_ip: Seq<char>,
    pub api_port: int,
    pub tls_cert: Option<Seq<char>>,
    pub tls_key: Option<Seq<char>>,
    pub no_api: bool,
    pub load_certs: Seq<Seq<char>>,
    pub load_keys: Seq<Seq<char>>,
}

impl View for Cli {
    type V = Options;

    open spec fn view(&self) -> Options {
        Options {
            bind_ip: self.bind_ip@,
            api_port: self.api_port as int,
            tls_cert: crate::crypto::text_option(self.tls_cert),
            tls_key: crate::crypto::text_option(self.tls_key),
            no_api: self.no_api,
            load_certs: text::texts(self.load_certs@),
            load_keys: text::texts(self.load_keys@),
        }
    }
}

/// What an empty command line asks for.
pub open spec fn default_options() -> Options {
    Options {
        bind_ip: "0.0.0.0"@,
        api_port: DEFAULT_PORT as int,
        tls_cert: None,
        tls_key: None,
        no_api: false,
        load_certs: Seq::empty(),
        load_keys: Seq::empty(),
    }
}

impl Default for Cli {
    fn default() -> (r: Cli)
        ensures
            r@ == default_options(),
    {
        let r: Cli = Cli {
            bind_ip: "0.0.0.0".to_string(),
            api_port: DEFAULT_PORT,
            tls_cert: None,
            tls_key: None,
            no_api: false,
            load_certs: Vec::new(),
            load_keys: Vec::new(),
        };
        assert(text::texts(r.load_certs@) =~= Seq::empty());
        assert(text::texts(r.load_keys@) =~= Seq::empty());
        r
    }
}

/// Whether all characters are decimal digits.
pub open spec fn all_digits(s: Seq<char>) -> bool {
    forall|i: int| 0 <= i < s.len() ==> '0' <= #[trigger] s[i] <= '9'
}

/// The number that digits write.
pub open spec fn number(s: Seq<char>) -> nat
    decreases s.len(),
{
    if s.len() == 0 {
        0
    } else {
        number(s.drop_last()) * 10 + (s.last() as nat - '0' as nat) as nat
    }
}

/// The port that a text names: digits, perhaps after a plus sign, for a number of 16 bits.
pub open spec fn port_of(s: Seq<char>) -> Option<int> {
    let digits = if s.len() > 0 && s[0] == '+' {
        s.skip(1)
    } else {
        s
    };
    if digits.len() > 0 && all_digits(digits) && number(digits) <= u16::MAX {
        Some(number(digits) as int)
    } else {
        None
    }
}

proof fn lemma_number_grows(s: Seq<char>, n: int)
    requires
        0 <= n <= s.len(),
    ensures
        number(s.take(n)) <= number(s),
    decreases s.len(),
{
    if n == s.len() {
        assert(s.take(n) =~= s);
    } else {
        assert(s.drop_last().take(n) =~= s.take(n));
        lemma_number_grows(s.drop_last(), n);
    }
}

/// Reads a port.
pub fn parse_port(s: &str) -> (r: Option<u16>)
    ensures
        match r {
            Some(p) => port_of(s@) == Some(p as int),
            None => port_of(s@) is None,
        },
{
    let cs: Vec<char> = text::chars_of(s);
    let start: usize = if cs.len() > 0 && cs[0] == '+' {
        1
    } else {
        0
    };
    let ghost digits = cs@.skip(start as int);
    assert(start == 0 ==> digits =~= cs@);
    if start >= cs.len() {
        return None;
    }
    let mut n: u32 = 0;
    let mut i: usize = start;
    assert(digits.take(0) =~= Seq::empty());
    while i < cs.len()
        invariant
            start <= i <= cs@.len(),
            digits == cs@.skip(start as int),
            n <= 65535,
            n == number(digits.take(i - start)),
            all_digits(digits.take(i - start)),
            port_of(s@) == (if all_digits(digits) && number(digits) <= u16::MAX {
                Some(number(digits) as int)
            } else {
                None
            }),
        decreases cs.len() - i,
    {
        let c: char = cs[i];
        let ghost k = i - start;
        assert(digits[k] == c);
        if !('0' <= c && c <= '9') {
            return None;
        }
        proof {
            assert(digits.take(k + 1).drop_last() =~= digits.take(k));
            lemma_number_grows(digits, k + 1);
            assert forall|j: int| 0 <= j < k + 1 implies '0' <= #[trigger] digits.take(k + 1)[j]
                <= '9' by {
                if j < k {
                    assert(digits.take(k)[j] == digits.take(k + 1)[j]);
                }
            }
        }
        n = n * 10 + (c as u32 - '0' as u32);
        if n > 65535 {
            return None;
        }
        i += 1;
    }
    assert(digits.take(i - start) =~= digits);
    Some(n as u16)
}

/// What options from the one with the number `i` on make of what was asked for so far, or the
/// message that ends the program: a help text, the version, or what is wrong.
pub open spec fn parsed(args: Seq<Seq<char>>, i: int, o: Options, version: Seq<char>) -> Result<
    Options,
    Seq<char>,
>
    decreases args.len() - i,
{
    if i < 0 || i >= args.len() {
        Ok(o)
    } else if args[i] == "-h"@ || args[i] == "--help"@ {
        Err(USAGE@)
    } else if args[i] == "--version"@ {
        Err("certik "@ + version)
    } else if args[i] == "--no-api"@ {
        parsed(args, i + 1, Options { no_api: true, ..o }, version)
    } else if args[i] == "-H"@ || args[i] == "--api-bind"@ {
        if i + 1 < args.len() {
            parsed(args, i + 2, Options { bind_ip: args[i + 1], ..o }, version)
        } else {
            Err("missing value for --api-bind"@)
        }
    } else if args[i] == "--api-port"@ {
        if i + 1 < args.len() {
            match port_of(args[i + 1]) {
                Some(p) => parsed(args, i + 2, Options { api_port: p, ..o }, version),
                None => Err("invalid value for --api-port"@),
            }
        } else {
            Err("missing value for --api-port"@)
        }
    } else if args[i] == "--tls-cert"@ {
        if i + 1 < args.len() {
            parsed(args, i + 2, Options { tls_cert: Some(args[i + 1]), ..o }, version)
        } else {
            Err("missing value for --tls-cert"@)
        }
    } else if args[i] == "--tls-key"@ {
        if i + 1 < args.len() {
            parsed(args, i + 2, Options { tls_key: Some(args[i + 1]), ..o }, version)
        } else {
            Err("missing value for --tls-key"@)
        }
    } else if args[i] == "--cert"@ {
        if i + 1 < args.len() {
            parsed(
                args,
                i + 2,
                Options { load_certs: o.load_certs.push(args[i + 1]), ..o },
                version,
            )
        } else {
            Err("missing value for --cert"@)
        }
    } else if args[i] == "--key"@ {
        if i + 1 < args.len() {
            parsed(
                args,
                i + 2,
                Options { load_keys: o.load_keys.push(args[i + 1]), ..o },
                version,
            )
        } else {
            Err("missing value for --key"@)
        }
    } else {
        Err("unknown argument: "@ + args[i] + "\n\n"@ + USAGE@)
    }
}

/// Reads the arguments of the program, without its name.
pub fn parse_args(args: &Vec<String>, version: &str) -> (r: Result<Cli, String>)
    ensures
        match r {
            Ok(cli) => parsed(text::texts(args@), 0, default_options(), version@) == Ok::<
                Options,
                Seq<char>,
            >(cli@),
            Err(e) => parsed(text::texts(args@), 0, default_options(), version@) == Err::<
                Options,
                Seq<char>,
            >(e@),
        },
{
    let mut cli: Cli = Cli::default();
    let ghost all = text::texts(args@);
    let size: usize = args.len();
    let mut i: usize = 0;
    while i < size
        invariant
            i <= size,
            size == args@.len(),
            all == text::texts(args@),
            parsed(all, i as int, cli@, version@) == parsed(all, 0, default_options(), version@),
        decreases size - i,
    {
        let arg: &String = &args[i];
        assert(all[i as int] == arg@);
        if text::str_eq(arg, "-h") || text::str_eq(arg, "--help") {
            return Err(USAGE.to_string());
        }
        if text::str_eq(arg, "--version") {
            let mut message: String = "certik ".to_string();
            message.append(version);
            return Err(message);
        }
        if text::str_eq(arg, "--no-api") {
            cli.no_api = true;
            i += 1;
        } else if text::str_eq(arg, "-H") || text::str_eq(arg, "--api-bind") {
            if size - i < 2 {
                return Err("missing value for --api-bind".to_string());
            }
            cli.bind_ip = args[i + 1].clone();
            i += 2;
        } else if text::str_eq(arg, "--api-port") {
            if size - i < 2 {
                return Err("missing value for --api-port".to_string());
            }
            match parse_port(&args[i + 1]) {
                Some(p) => {
                    cli.api_port = p;
                },
                None => return Err("invalid value for --api-port".to_string()),
            }
            i += 2;
        } else if text::str_eq(arg, "--tls-cert") {
            if size - i < 2 {
                return Err("missing value for --tls-cert".to_string());
            }
            cli.tls_cert = Some(args[i + 1].clone());
            i += 2;
        } else if text::str_eq(arg, "--tls-key") {
            if size - i < 2 {
                return Err("missing value for --tls-key".to_string());
            }
            cli.tls_key = Some(args[i + 1].clone());
            i += 2;
        } else if text::str_eq(arg, "--cert") {
            if size - i < 2 {
                return Err("missing value for --cert".to_string());
            }
            text::push_text(&mut cli.load_certs, args[i + 1].clone());
            i += 2;
        } else if text::str_eq(arg, "--key") {
            if size - i < 2 {
                return Err("missing value for --key".to_string());
            }
            text::push_text(&mut cli.load_keys, args[i + 1].clone());
            i += 2;
        } else {
            let mut message: String = "unknown argument: ".to_string();
            message.append(arg);
            message.append("\n\n");
            message.append(USAGE);
            return Err(message);
        }
    }
    Ok(cli)
}

/// The exit code for a message that ends the program: one that begins with the program's name is no
/// failure.
pub open spec fn code_for(message: Seq<char>) -> i32 {
    if text::begins(message, "certik"@) {
        0
    } else {
        2
    }
}

/// The exit code for a message that ends the program: help and version are no failures.
pub fn exit_code(message: &str) -> (r: i32)
    ensures
        r == code_for(message@),
        r == (if text::begins(message@, "certik"@) {
            0i32
        } else {
            2
        }),
{
    if text::starts_with(message, "certik") {
        0
    } else {
        2
    }
}

/// An address: a host, a colon and a port.
pub open spec fn address_text(host: Seq<char>, port: u16) -> Seq<char> {
    host + ":"@ + text::decimal(port as nat)
}

/// The address that the API is to listen at, and the one that it listens at where that is none.
pub fn bind_addresses(cli: &Cli) -> (r: (String, String))
    ensures
        r.0@ == address_text(cli.bind_ip@, cli.api_port),
        r.1@ == address_text("127.0.0.1"@, cli.api_port),
        r.0@ == cli.bind_ip@ + ":"@ + text::decimal(cli.api_port as nat),
        r.1@ == "127.0.0.1:"@ + text::decimal(cli.api_port as nat),
{
    let port: String = text::dec_u64(cli.api_port as u64);
    let mut wanted: String = cli.bind_ip.clone();
    wanted.append(":");
    wanted.append(&port);
    let mut local: String = "127.0.0.1:".to_string();
    local.append(&port);
    proof {
        reveal_strlit("127.0.0.1:");
        reveal_strlit("127.0.0.1");
        reveal_strlit(":");
        assert("127.0.0.1"@ + ":"@ =~= "127.0.0.1:"@);
    }
    (wanted, local)
}

proof fn lemma_decimal_number(n: nat)
    ensures
        text::decimal(n).len() > 0,
        all_digits(text::decimal(n)),
        number(text::decimal(n)) == n,
    decreases n,
{
    if n < 10 {
        let s = text::decimal(n);
        assert(s.drop_last() =~= Seq::empty());
        assert(number(s.drop_last()) == 0);
    } else {
        let s = text::decimal(n);
        lemma_decimal_number(n / 10);
        assert(s.drop_last() =~= text::decimal(n / 10));
        assert forall|i: int| 0 <= i < s.len() implies '0' <= #[trigger] s[i] <= '9' by {
            if i < s.len() - 1 {
                assert(s[i] == text::decimal(n / 10)[i]);
            }
        }
    }
}

/// A port that is written in decimal is read back.
pub proof fn port_reads_back(port: u16)
    ensures
        port_of(text::decimal(port as nat)) == Some(port as int),
{
    lemma_decimal_number(port as nat);
    assert('0' <= text::decimal(port as nat)[0]);
}

/// Only the help text and the version end the program successfully: any other message comes with the
/// exit code of a failure.
pub proof fn mistakes_are_failures(args: Seq<Seq<char>>, i: int, o: Options, version: Seq<char>)
    requires
        parsed(args, i, o, version) is Err,
        parsed(args, i, o, version)->Err_0 != USAGE@,
        parsed(args, i, o, version)->Err_0 != "certik "@ + version,
    ensures
        !text::begins(parsed(args, i, o, version)->Err_0, "certik"@),
    decreases args.len() - i,
{
    reveal_strlit("certik");
    reveal_strlit("missing value for --api-bind");
    reveal_strlit("missing value for --api-port");
    reveal_strlit("invalid value for --api-port");
    reveal_strlit("missing value for --tls-cert");
    reveal_strlit("missing value for --tls-key");
    reveal_strlit("missing value for --cert");
    reveal_strlit("missing value for --key");
    reveal_strlit("unknown argument: ");
    let e = parsed(args, i, o, version)->Err_0;
    if text::begins(e, "certik"@) {
        assert(e.subrange(0, 6)[0] == 'c');
        assert(e[0] == 'c');
    }
    if args[i] == "--no-api"@ {
        mistakes_are_failures(args, i + 1, Options { no_api: true, ..o }, version);
    } else if i + 1 < args.len() {
        if args[i] == "-H"@ || args[i] == "--api-bind"@ {
            mistakes_are_failures(args, i + 2, Options { bind_ip: args[i + 1], ..o }, version);
        } else if args[i] == "--api-port"@ {
            if let Some(p) = port_of(args[i + 1]) {
                mistakes_are_failures(args, i + 2, Options { api_port: p, ..o }, version);
            }
        } else if args[i] == "--tls-cert"@ {
            mistakes_are_failures(
                args,
                i + 2,
                Options { tls_cert: Some(args[i + 1]), ..o },
                version,
            );
        } else if args[i] == "--tls-key"@ {
            mistakes_are_failures(args, i + 2, Options { tls_key: Some(args[i + 1]), ..o }, version);
        } else if args[i] == "--cert"@ {
            mistakes_are_failures(
                args,
                i + 2,
                Options { load_certs: o.load_certs.push(args[i + 1]), ..o },
                version,
            );
        } else if args[i] == "--key"@ {
            mistakes_are_failures(
                args,
                i + 2,
                Options { load_keys: o.load_keys.push(args[i + 1]), ..o },
                version,
            );
        }
    }
}

/// What the whole command line asks for, or the message that ends the program.
pub open spec fn asked(args: Seq<Seq<char>>, version: Seq<char>) -> Result<Options, Seq<char>> {
    parsed(args, 0, default_options(), version)
}

proof fn lemma_options_differ()
    ensures
        "--help"@ != "-h"@,
        "--version"@ != "-h"@,
        "--version"@ != "--help"@,
        "--no-api"@ != "-h"@,
        "--no-api"@ != "--help"@,
        "--no-api"@ != "--version"@,
        "-H"@ != "-h"@,
        "-H"@ != "--help"@,
        "-H"@ != "--version"@,
        "-H"@ != "--no-api"@,
        "--api-bind"@ != "-h"@,
        "--api-bind"@ != "--help"@,
        "--api-bind"@ != "--version"@,
        "--api-bind"@ != "--no-api"@,
        "--api-bind"@ != "-H"@,
        "--api-port"@ != "-h"@,
        "--api-port"@ != "--help"@,
        "--api-port"@ != "--version"@,
        "--api-port"@ != "--no-api"@,
        "--api-port"@ != "-H"@,
        "--api-port"@ != "--api-bind"@,
        "--tls-cert"@ != "-h"@,
        "--tls-cert"@ != "--help"@,
        "--tls-cert"@ != "--version"@,
        "--tls-cert"@ != "--no-api"@,
        "--tls-cert"@ != "-H"@,
        "--tls-cert"@ != "--api-bind"@,
        "--tls-cert"@ != "--api-port"@,
        "--tls-key"@ != "-h"@,
        "--tls-key"@ != "--help"@,
        "--tls-key"@ != "--version"@,
        "--tls-key"@ != "--no-api"@,
        "--tls-key"@ != "-H"@,
        "--tls-key"@ != "--api-bind"@,
        "--tls-key"@ != "--api-port"@,
        "--tls-key"@ != "--tls-cert"@,
        "--cert"@ != "-h"@,
        "--cert"@ != "--help"@,
        "--cert"@ != "--version"@,
        "--cert"@ != "--no-api"@,
        "--cert"@ != "-H"@,
        "--cert"@ != "--api-bind"@,
        "--cert"@ != "--api-port"@,
        "--cert"@ != "--tls-cert"@,
        "--cert"@ != "--tls-key"@,
        "--key"@ != "-h"@,
        "--key"@ != "--help"@,
        "--key"@ != "--version"@,
        "--key"@ != "--no-api"@,
        "--key"@ != "-H"@,
        "--key"@ != "--api-bind"@,
        "--key"@ != "--api-port"@,
        "--key"@ != "--tls-cert"@,
        "--key"@ != "--tls-key"@,
        "--key"@ != "--cert"@,
{
    reveal_strlit("-h");
    reveal_strlit("--help");
    reveal_strlit("--version");
    reveal_strlit("--no-api");
    reveal_strlit("-H");
    reveal_strlit("--api-bind");
    reveal_strlit("--api-port");
    reveal_strlit("--tls-cert");
    reveal_strlit("--tls-key");
    reveal_strlit("--cert");
    reveal_strlit("--key");
    assert("--help"@.len() != "-h"@.len());
    assert("--version"@.len() != "-h"@.len());
    assert("--version"@.len() != "--help"@.len());
    assert("--no-api"@.len() != "-h"@.len());
    assert("--no-api"@.len() != "--help"@.len());
    assert("--no-api"@.len() != "--version"@.len());
    assert("-H"@[1] != "-h"@[1]);
    assert("-H"@.len() != "--help"@.len());
    assert("-H"@.len() != "--version"@.len());
    assert("-H"@.len() != "--no-api"@.len());
    assert("--api-bind"@.len() != "-h"@.len());
    assert("--api-bind"@.len() != "--help"@.len());
    assert("--api-bind"@.len() != "--version"@.len());
    assert("--api-bind"@.len() != "--no-api"@.len());
    assert("--api-bind"@.len() != "-H"@.len());
    assert("--api-port"@.len() != "-h"@.len());
    assert("--api-port"@.len() != "--help"@.len());
    assert("--api-port"@.len() != "--version"@.len());
    assert("--api-port"@.len() != "--no-api"@.len());
    assert("--api-port"@.len() != "-H"@.len());
    assert("--api-port"@[6] != "--api-bind"@[6]);
    assert("--tls-cert"@.len() != "-h"@.len());
    assert("--tls-cert"@.len() != "--help"@.len());
    assert("--tls-cert"@.len() != "--version"@.len());
    assert("--tls-cert"@.len() != "--no-api"@.len());
    assert("--tls-cert"@.len() != "-H"@.len());
    assert("--tls-cert"@[2] != "--api-bind"@[2]);
    assert("--tls-cert"@[2] != "--api-port"@[2]);
    assert("--tls-key"@.len() != "-h"@.len());
    assert("--tls-key"@.len() != "--help"@.len());
    assert("--tls-key"@[2] != "--version"@[2]);
    assert("--tls-key"@.len() != "--no-api"@.len());
    assert("--tls-key"@.len() != "-H"@.len());
    assert("--tls-key"@.len() != "--api-bind"@.len());
    assert("--tls-key"@.len() != "--api-port"@.len());
    assert("--tls-key"@.len() != "--tls-cert"@.len());
    assert("--cert"@.len() != "-h"@.len());
    assert("--cert"@[2] != "--help"@[2]);
    assert("--cert"@.len() != "--version"@.len());
    assert("--cert"@.len() != "--no-api"@.len());
    assert("--cert"@.len() != "-H"@.len());
    assert("--cert"@.len() != "--api-bind"@.len());
    assert("--cert"@.len() != "--api-port"@.len());
    assert("--cert"@.len() != "--tls-cert"@.len());
    assert("--cert"@.len() != "--tls-key"@.len());
    assert("--key"@.len() != "-h"@.len());
    assert("--key"@.len() != "--help"@.len());
    assert("--key"@.len() != "--version"@.len());
    assert("--key"@.len() != "--no-api"@.len());
    assert("--key"@.len() != "-H"@.len());
    assert("--key"@.len() != "--api-bind"@.len());
    assert("--key"@.len() != "--api-port"@.len());
    assert("--key"@.len() != "--tls-cert"@.len());
    assert("--key"@.len() != "--tls-key"@.len());
    assert("--key"@.len() != "--cert"@.len());
}

/// What follows on a command line is read as if it stood alone, with what was asked for before.
proof fn lemma_parsed_on(
    args: Seq<Seq<char>>,
    more: Seq<Seq<char>>,
    i: int,
    o: Options,
    version: Seq<char>,
)
    requires
        0 <= i <= args.len(),
        parsed(args, i, o, version) is Ok,
    ensures
        parsed(args + more, i, o, version) == parsed(
            args + more,
            args.len() as int,
            parsed(args, i, o, version)->Ok_0,
            version,
        ),
    decreases args.len() - i,
{
    let all = args + more;
    if i < args.len() {
        assert(all[i] == args[i]);
        if i + 1 < args.len() {
            assert(all[i + 1] == args[i + 1]);
        }
        if args[i] == "--no-api"@ {
            lemma_parsed_on(args, more, i + 1, Options { no_api: true, ..o }, version);
        } else if args[i] == "-H"@ || args[i] == "--api-bind"@ {
            lemma_parsed_on(args, more, i + 2, Options { bind_ip: args[i + 1], ..o }, version);
        } else if args[i] == "--api-port"@ {
            if let Some(p) = port_of(args[i + 1]) {
                lemma_parsed_on(args, more, i + 2, Options { api_port: p, ..o }, version);
            }
        } else if args[i] == "--tls-cert"@ {
            lemma_parsed_on(args, more, i + 2, Options { tls_cert: Some(args[i + 1]), ..o }, version);
        } else if args[i] == "--tls-key"@ {
            lemma_parsed_on(args, more, i + 2, Options { tls_key: Some(args[i + 1]), ..o }, version);
        } else if args[i] == "--cert"@ {
            lemma_parsed_on(
                args,
                more,
                i + 2,
                Options { load_certs: o.load_certs.push(args[i + 1]), ..o },
                version,
            );
        } else if args[i] == "--key"@ {
            lemma_parsed_on(
                args,
                more,
                i + 2,
                Options { load_keys: o.load_keys.push(args[i + 1]), ..o },
                version,
            );
        }
    }
}

proof fn lemma_pair_read(
    args: Seq<Seq<char>>,
    name: Seq<char>,
    value: Seq<char>,
    version: Seq<char>,
)
    requires
        asked(args, version) is Ok,
    ensures
        ({
            let n = args.len() as int;
            let all = args + seq![name, value];
            &&& all.len() == n + 2
            &&& all[n] == name
            &&& all[n + 1] == value
            &&& asked(all, version) == parsed(all, n, asked(args, version)->Ok_0, version)
        }),
{
    lemma_parsed_on(args, seq![name, value], 0, default_options(), version);
}

proof fn lemma_single_read(args: Seq<Seq<char>>, name: Seq<char>, version: Seq<char>)
    requires
        asked(args, version) is Ok,
    ensures
        ({
            let n = args.len() as int;
            let all = args + seq![name];
            &&& all.len() == n + 1
            &&& all[n] == name
            &&& asked(all, version) == parsed(all, n, asked(args, version)->Ok_0, version)
        }),
{
    lemma_parsed_on(args, seq![name], 0, default_options(), version);
}

/// An option with a value, at the end of a command line, sets what it is for to the value, whatever
/// was asked for before, and leaves the rest as it was. Files to load are gathered in their order.
#[verifier::spinoff_prover]
pub proof fn last_option_counts(args: Seq<Seq<char>>, value: Seq<char>, version: Seq<char>)
    requires
        asked(args, version) is Ok,
    ensures
        ({
            let o = asked(args, version)->Ok_0;
            let with = |name: Seq<char>| asked(args + seq![name, value], version);
            &&& with("-H"@) == Ok::<Options, Seq<char>>(Options { bind_ip: value, ..o })
            &&& with("--api-bind"@) == Ok::<Options, Seq<char>>(Options { bind_ip: value, ..o })
            &&& with("--tls-cert"@) == Ok::<Options, Seq<char>>(
                Options { tls_cert: Some(value), ..o },
            )
            &&& with("--tls-key"@) == Ok::<Options, Seq<char>>(Options { tls_key: Some(value), ..o })
            &&& with("--cert"@) == Ok::<Options, Seq<char>>(
                Options { load_certs: o.load_certs + seq![value], ..o },
            )
            &&& with("--key"@) == Ok::<Options, Seq<char>>(
                Options { load_keys: o.load_keys + seq![value], ..o },
            )
        }),
{
    lemma_options_differ();
    reveal_with_fuel(parsed, 2);
    let o = asked(args, version)->Ok_0;
    lemma_pair_read(args, "-H"@, value, version);
    lemma_pair_read(args, "--api-bind"@, value, version);
    lemma_pair_read(args, "--tls-cert"@, value, version);
    lemma_pair_read(args, "--tls-key"@, value, version);
    lemma_pair_read(args, "--cert"@, value, version);
    lemma_pair_read(args, "--key"@, value, version);
    assert(o.load_certs + seq![value] =~= o.load_certs.push(value));
    assert(o.load_keys + seq![value] =~= o.load_keys.push(value));
}

/// A port in decimal, at the end of a command line, is the one that the API is asked to listen at; a
/// text that holds anything but digits, after the first character, is none.
#[verifier::spinoff_prover]
pub proof fn ports_are_read(args: Seq<Seq<char>>, port: u16, value: Seq<char>, version: Seq<char>)
    requires
        asked(args, version) is Ok,
        exists|i: int| 1 <= i < value.len() && !('0' <= #[trigger] value[i] <= '9'),
    ensures
        asked(args + seq!["--api-port"@, text::decimal(port as nat)], version) == Ok::<
            Options,
            Seq<char>,
        >(Options { api_port: port as int, ..asked(args, version)->Ok_0 }),
        asked(args + seq!["--api-port"@, value], version) == Err::<Options, Seq<char>>(
            "invalid value for --api-port"@,
        ),
{
    lemma_options_differ();
    reveal_with_fuel(parsed, 2);
    lemma_pair_read(args, "--api-port"@, text::decimal(port as nat), version);
    lemma_pair_read(args, "--api-port"@, value, version);
    port_reads_back(port);
    let i = choose|i: int| 1 <= i < value.len() && !('0' <= #[trigger] value[i] <= '9');
    if value[0] == '+' {
        assert(value.skip(1)[i - 1] == value[i]);
    }
    assert(port_of(value) is None);
}

/// A single option at the end of a command line: the API is switched off, help or version are shown,
/// and an option that lacks its value, like one that is not known, is a mistake that names it.
#[verifier::spinoff_prover]
pub proof fn single_option_counts(args: Seq<Seq<char>>, other: Seq<char>, version: Seq<char>)
    requires
        asked(args, version) is Ok,
        forall|k: int| 0 <= k < option_names().len() ==> other != #[trigger] option_names()[k],
    ensures
        ({
            let o = asked(args, version)->Ok_0;
            let with = |name: Seq<char>| asked(args + seq![name], version);
            &&& with("--no-api"@) == Ok::<Options, Seq<char>>(Options { no_api: true, ..o })
            &&& with("-h"@) == Err::<Options, Seq<char>>(USAGE@)
            &&& with("--help"@) == Err::<Options, Seq<char>>(USAGE@)
            &&& with("--version"@) == Err::<Options, Seq<char>>("certik "@ + version)
            &&& with("--api-bind"@) == Err::<Options, Seq<char>>("missing value for --api-bind"@)
            &&& with("--api-port"@) == Err::<Options, Seq<char>>("missing value for --api-port"@)
            &&& with("--tls-cert"@) == Err::<Options, Seq<char>>("missing value for --tls-cert"@)
            &&& with("--tls-key"@) == Err::<Options, Seq<char>>("missing value for --tls-key"@)
            &&& with("--cert"@) == Err::<Options, Seq<char>>("missing value for --cert"@)
            &&& with("--key"@) == Err::<Options, Seq<char>>("missing value for --key"@)
            &&& with(other) is Err && text::begins(with(other)->Err_0, "unknown argument: "@ + other)
        }),
{
    lemma_options_differ();
    reveal_with_fuel(parsed, 2);
    lemma_single_read(args, "--no-api"@, version);
    lemma_single_read(args, "-h"@, version);
    lemma_single_read(args, "--help"@, version);
    lemma_single_read(args, "--version"@, version);
    lemma_single_read(args, "--api-bind"@, version);
    lemma_single_read(args, "--api-port"@, version);
    lemma_single_read(args, "--tls-cert"@, version);
    lemma_single_read(args, "--tls-key"@, version);
    lemma_single_read(args, "--cert"@, version);
    lemma_single_read(args, "--key"@, version);
    lemma_single_read(args, other, version);
    let all = option_names();
    assert(other != all[0] && other != all[1] && other != all[2] && other != all[3] && other
        != all[4] && other != all[5] && other != all[6] && other != all[7] && other != all[8]
        && other != all[9] && other != all[10]);
    let start = "unknown argument: "@ + other;
    let message = start + "\n\n"@ + USAGE@;
    assert(message.subrange(0, start.len() as int) =~= start);
    assert(asked(args + seq![other], version) == Err::<Options, Seq<char>>(message));
}

/// The options that there are.
pub open spec fn option_names() -> Seq<Seq<char>> {
    seq![
        "-h"@,
        "--help"@,
        "--version"@,
        "--no-api"@,
        "-H"@,
        "--api-bind"@,
        "--api-port"@,
        "--tls-cert"@,
        "--tls-key"@,
        "--cert"@,
        "--key"@,
    ]
}

/// The version ends the program successfully; a message that is neither the version nor the help text
/// ends it with another code.
pub proof fn codes_tell_mistakes(args: Seq<Seq<char>>, version: Seq<char>)
    requires
        asked(args, version) is Err,
    ensures
        code_for("certik "@ + version) == 0,
        asked(args, version)->Err_0 != USAGE@ && asked(args, version)->Err_0 != "certik "@ + version
            ==> code_for(asked(args, version)->Err_0) == 2,
{
    reveal_strlit("certik");
    reveal_strlit("certik ");
    let v = "certik "@ + version;
    assert(v.subrange(0, 6) =~= "certik"@);
    let e = asked(args, version)->Err_0;
    if e != USAGE@ && e != v {
        mistakes_are_failures(args, 0, default_options(), version);
    }
}

/// In an address the host comes first, and what follows the colon after it reads back as the port.
pub proof fn addresses_tell_host_and_port(host: Seq<char>, port: u16)
    ensures
        text::begins(address_text(host, port), host),
        address_text(host, port)[host.len() as int] == ':',
        port_of(address_text(host, port).skip(host.len() as int + 1)) == Some(port as int),
{
    reveal_strlit(":");
    let t = address_text(host, port);
    assert(t.subrange(0, host.len() as int) =~= host);
    assert(t.skip(host.len() as int + 1) =~= text::decimal(port as nat));
    port_reads_back(port);
}

proof fn lemma_unasked(args: Seq<Seq<char>>, i: int, o: Options, version: Seq<char>)
    requires
        0 <= i,
        parsed(args, i, o, version) is Ok,
    ensures
        ({
            let r = parsed(args, i, o, version)->Ok_0;
            &&& !args.contains("-H"@) && !args.contains("--api-bind"@) ==> r.bind_ip == o.bind_ip
            &&& !args.contains("--api-port"@) ==> r.api_port == o.api_port
            &&& !args.contains("--tls-cert"@) ==> r.tls_cert == o.tls_cert
            &&& !args.contains("--tls-key"@) ==> r.tls_key == o.tls_key
            &&& !args.contains("--no-api"@) ==> r.no_api == o.no_api
            &&& !args.contains("--cert"@) ==> r.load_certs == o.load_certs
            &&& !args.contains("--key"@) ==> r.load_keys == o.load_keys
        }),
    decreases args.len() - i,
{
    if i < args.len() {
        assert(args.contains(args[i]));
        if args[i] == "--no-api"@ {
            lemma_unasked(args, i + 1, Options { no_api: true, ..o }, version);
        } else if args[i] == "-H"@ || args[i] == "--api-bind"@ {
            lemma_unasked(args, i + 2, Options { bind_ip: args[i + 1], ..o }, version);
        } else if args[i] == "--api-port"@ {
            if let Some(p) = port_of(args[i + 1]) {
                lemma_unasked(args, i + 2, Options { api_port: p, ..o }, version);
            }
        } else if args[i] == "--tls-cert"@ {
            lemma_unasked(args, i + 2, Options { tls_cert: Some(args[i + 1]), ..o }, version);
        } else if args[i] == "--tls-key"@ {
            lemma_unasked(args, i + 2, Options { tls_key: Some(args[i + 1]), ..o }, version);
        } else if args[i] == "--cert"@ {
            lemma_unasked(
                args,
                i + 2,
                Options { load_certs: o.load_certs.push(args[i + 1]), ..o },
                version,
            );
        } else if args[i] == "--key"@ {
            lemma_unasked(
                args,
                i + 2,
                Options { load_keys: o.load_keys.push(args[i + 1]), ..o },
                version,
            );
        }
    }
}

/// What no option asks for is as the help text says: the API listens on all addresses at its port, has
/// no certificate and key of its own, and is not switched off; and nothing is loaded.
pub proof fn unasked_is_default(args: Seq<Seq<char>>, version: Seq<char>)
    requires
        asked(args, version) is Ok,
    ensures
        ({
            let o = asked(args, version)->Ok_0;
            &&& !args.contains("-H"@) && !args.contains("--api-bind"@) ==> o.bind_ip == "0.0.0.0"@
            &&& !args.contains("--api-port"@) ==> o.api_port == 24489
            &&& !args.contains("--tls-cert"@) ==> o.tls_cert is None
            &&& !args.contains("--tls-key"@) ==> o.tls_key is None
            &&& !args.contains("--no-api"@) ==> !o.no_api
            &&& !args.contains("--cert"@) ==> o.load_certs.len() == 0
            &&& !args.contains("--key"@) ==> o.load_keys.len() == 0
        }),
{
    lemma_unasked(args, 0, default_options(), version);
}

/// A plus sign before a port does not count; a text without digits is no port.
pub proof fn plus_signs_are_allowed(port: u16)
    ensures
        port_of("+"@ + text::decimal(port as nat)) == Some(port as int),
        port_of(Seq::empty()) is None,
        port_of("+"@) is None,
{
    reveal_strlit("+");
    lemma_decimal_number(port as nat);
    let s = "+"@ + text::decimal(port as nat);
    assert(s.skip(1) =~= text::decimal(port as nat));
    assert("+"@.skip(1) =~= Seq::empty());
}

} // verus!
