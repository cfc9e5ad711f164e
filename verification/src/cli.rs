//! Argument parsing for the bundled binary.
//!
//! Intentionally tiny: the crate is library-first, and this exists only to
//! drive the protocol core.

use vstd::prelude::*;
use vstd::utf8::encode_utf8;

use crate::octets::find_byte;
use crate::text::{all_digits, check_all_digits, decimal_value};

verus! {

/// What the binary was asked to do.
#[derive(Debug, Clone, PartialEq, Eq)]
pub enum Command {
    /// List AirPlay receivers on the network.
    Discover,
    /// Stream a WAV file to a receiver (name or IP).
    Play { target: String, file: String },
}

/// Parsed command line.
#[derive(Debug, Clone, PartialEq, Eq)]
pub struct Cli {
    pub command: Command,
    /// Local IPv4 to bind (the LAN interface), pinning the egress path, as
    /// its four octets.
    pub bind: Option<[u8; 4]>,
    pub verbose: bool,
}

/// Why parsing did not yield a runnable command.
#[derive(Debug, Clone, Copy, PartialEq, Eq, Structural)]
pub enum CliError {
    /// `--help` was requested — not an error; print usage to stdout.
    Help,
    /// Bad arguments — print usage to stderr and exit non-zero.
    Usage,
}

/// A command as the contracts see it.
pub enum CommandView {
    Discover,
    Play { target: Seq<char>, file: Seq<char> },
}

/// A command line as the contracts see it.
pub struct CliView {
    pub command: CommandView,
    pub bind: Option<Seq<u8>>,
    pub verbose: bool,
}

impl View for Cli {
    type V = CliView;

    open spec fn view(&self) -> CliView {
        CliView {
            command: match self.command {
                Command::Discover => CommandView::Discover,
                Command::Play { target, file } => CommandView::Play {
                    target: target@,
                    file: file@,
                },
            },
            bind: match self.bind {
                Some(ip) => Some(ip@),
                None => None,
            },
            verbose: self.verbose,
        }
    }
}

/// The usage text.
pub open spec fn usage_text() -> Seq<char> {
    "openplay — AirPlay 2 audio sender\n\
     \n\
     usage:\n\
     \x20 openplay --discover [--iface <ip>]\n\
     \x20 openplay <target> <file.wav> [--iface <ip>]\n\
     \n\
     options:\n\
     \x20 -i, --iface <ip>  bind to this local IPv4 (LAN interface)\n\
     \x20 -v, --verbose     more log detail\n\
     \x20 -h, --help        show this help\n\
     \n\
     <target> is a receiver name (e.g. Bedroom) or an IP address."@
}

/// Usage text shown on `--help` or a parse error.
pub fn usage() -> (r: &'static str)
    ensures
        r@ == usage_text(),
{
    "openplay — AirPlay 2 audio sender\n\
     \n\
     usage:\n\
     \x20 openplay --discover [--iface <ip>]\n\
     \x20 openplay <target> <file.wav> [--iface <ip>]\n\
     \n\
     options:\n\
     \x20 -i, --iface <ip>  bind to this local IPv4 (LAN interface)\n\
     \x20 -v, --verbose     more log detail\n\
     \x20 -h, --help        show this help\n\
     \n\
     <target> is a receiver name (e.g. Bedroom) or an IP address."
}

/// One octet of a dotted-quad address: one to three decimal digits, no
/// leading zero unless it is the only digit, at most 255.
pub open spec fn octet_ok(d: Seq<u8>) -> bool {
    1 <= d.len() <= 3 && all_digits(d) && (d.len() == 1 || d[0] != 48) && decimal_value(d) <= 255
}

/// The four octets of an IPv4 address in dotted-decimal notation, as
/// `Ipv4Addr` parses it: exactly four octets separated by dots.
pub open spec fn ipv4_of(b: Seq<u8>) -> Option<Seq<u8>> {
    match crate::octets::byte_index(b, 46, 0) {
        None => None,
        Some(i1) => match crate::octets::byte_index(b, 46, i1 + 1) {
            None => None,
            Some(i2) => match crate::octets::byte_index(b, 46, i2 + 1) {
                None => None,
                Some(i3) => {
                    let p0 = b.subrange(0, i1);
                    let p1 = b.subrange(i1 + 1, i2);
                    let p2 = b.subrange(i2 + 1, i3);
                    let p3 = b.subrange(i3 + 1, b.len() as int);
                    if crate::octets::byte_index(b, 46, i3 + 1) is None && octet_ok(p0) && octet_ok(
                        p1,
                    ) && octet_ok(p2) && octet_ok(p3) {
                        Some(
                            seq![
                                decimal_value(p0) as u8,
                                decimal_value(p1) as u8,
                                decimal_value(p2) as u8,
                                decimal_value(p3) as u8,
                            ],
                        )
                    } else {
                        None
                    }
                },
            },
        },
    }
}

fn parse_octet(d: &[u8]) -> (r: Option<u8>)
    ensures
        match r {
            Some(v) => octet_ok(d@) && v as nat == decimal_value(d@),
            None => !octet_ok(d@),
        },
{
    let n = d.len();
    if n < 1 || n > 3 || !check_all_digits(d) {
        return None;
    }
    if n > 1 && d[0] == 48 {
        return None;
    }
    let mut v: u32 = 0;
    let mut i: usize = 0;
    while i < n
        invariant
            n == d@.len(),
            n <= 3,
            all_digits(d@),
            0 <= i <= n,
            v as nat == decimal_value(d@.take(i as int)),
            v < 1000,
            i == 0 ==> v == 0,
            i == 1 ==> v < 10,
            i == 2 ==> v < 100,
        decreases n - i,
    {
        assert(d@.take(i + 1).drop_last() =~= d@.take(i as int));
        assert(d@.take(i + 1).last() == d@[i as int]);
        assert(48 <= d@[i as int] <= 57);
        v = v * 10 + (d[i] - 48) as u32;
        i += 1;
    }
    assert(d@.take(n as int) =~= d@);
    if v > 255 {
        return None;
    }
    Some(v as u8)
}

/// Parses a dotted-decimal IPv4 address into its four octets.
pub fn parse_ipv4(s: &str) -> (r: Option<[u8; 4]>)
    ensures
        match r {
            Some(ip) => ipv4_of(encode_utf8(s@)) == Some(ip@),
            None => ipv4_of(encode_utf8(s@)) is None,
        },
{
    let b = s.as_bytes();
    let n = b.len();
    let i1 = match find_byte(b, 46, 0) {
        Some(i) => i,
        None => {
            return None;
        },
    };
    let i2 = match find_byte(b, 46, i1 + 1) {
        Some(i) => i,
        None => {
            return None;
        },
    };
    let i3 = match find_byte(b, 46, i2 + 1) {
        Some(i) => i,
        None => {
            return None;
        },
    };
    if find_byte(b, 46, i3 + 1).is_some() {
        return None;
    }
    let o0 = parse_octet(vstd::slice::slice_subrange(b, 0, i1));
    let o1 = parse_octet(vstd::slice::slice_subrange(b, i1 + 1, i2));
    let o2 = parse_octet(vstd::slice::slice_subrange(b, i2 + 1, i3));
    let o3 = parse_octet(vstd::slice::slice_subrange(b, i3 + 1, n));
    match (o0, o1, o2, o3) {
        (Some(a), Some(b1), Some(c), Some(d)) => {
            let ip = [a, b1, c, d];
            assert(ip@ =~= seq![a, b1, c, d]);
            Some(ip)
        },
        _ => None,
    }
}

/// `--`.
pub open spec fn opt_end() -> Seq<u8> {
    seq![45u8, 45]
}

/// `-h`.
pub open spec fn opt_help_short() -> Seq<u8> {
    seq![45u8, 104]
}

/// `--help`.
pub open spec fn opt_help_long() -> Seq<u8> {
    seq![45u8, 45, 104, 101, 108, 112]
}

/// `-v`.
pub open spec fn opt_verbose_short() -> Seq<u8> {
    seq![45u8, 118]
}

/// `--verbose`.
pub open spec fn opt_verbose_long() -> Seq<u8> {
    seq![45u8, 45, 118, 101, 114, 98, 111, 115, 101]
}

/// `--discover`.
pub open spec fn opt_discover() -> Seq<u8> {
    seq![45u8, 45, 100, 105, 115, 99, 111, 118, 101, 114]
}

/// `-i`.
pub open spec fn opt_iface_short() -> Seq<u8> {
    seq![45u8, 105]
}

/// `--iface`.
pub open spec fn opt_iface_long() -> Seq<u8> {
    seq![45u8, 45, 105, 102, 97, 99, 101]
}

/// The command the flags and positional arguments call for.
pub open spec fn command_of(discover: bool, pos: Seq<Seq<char>>) -> Result<CommandView, CliError> {
    if discover {
        if pos.len() == 0 {
            Ok(CommandView::Discover)
        } else {
            Err(CliError::Usage)
        }
    } else if pos.len() == 2 {
        Ok(CommandView::Play { target: pos[0], file: pos[1] })
    } else {
        Err(CliError::Usage)
    }
}

/// Parsing from argument `i` on, with what the arguments before it set.
pub open spec fn scan_args(
    args: Seq<Seq<char>>,
    i: int,
    opts_done: bool,
    discover: bool,
    verbose: bool,
    bind: Option<Seq<u8>>,
    pos: Seq<Seq<char>>,
) -> Result<CliView, CliError>
    decreases args.len() - i,
{
    if i < 0 || i >= args.len() {
        match command_of(discover, pos) {
            Ok(command) => Ok(CliView { command, bind, verbose }),
            Err(e) => Err(e),
        }
    } else {
        let a = args[i];
        let b = encode_utf8(a);
        if opts_done {
            scan_args(args, i + 1, true, discover, verbose, bind, pos.push(a))
        } else if b == opt_end() {
            scan_args(args, i + 1, true, discover, verbose, bind, pos)
        } else if b == opt_help_short() || b == opt_help_long() {
            Err(CliError::Help)
        } else if b == opt_verbose_short() || b == opt_verbose_long() {
            scan_args(args, i + 1, false, discover, true, bind, pos)
        } else if b == opt_discover() {
            scan_args(args, i + 1, false, true, verbose, bind, pos)
        } else if b == opt_iface_short() || b == opt_iface_long() {
            if i + 1 >= args.len() {
                Err(CliError::Usage)
            } else {
                match ipv4_of(encode_utf8(args[i + 1])) {
                    None => Err(CliError::Usage),
                    Some(ip) => scan_args(args, i + 2, false, discover, verbose, Some(ip), pos),
                }
            }
        } else if b.len() > 0 && b[0] == 45 {
            Err(CliError::Usage)
        } else {
            scan_args(args, i + 1, false, discover, verbose, bind, pos.push(a))
        }
    }
}

/// What a command line (without the program name) parses to.
pub open spec fn parse_spec(args: Seq<Seq<char>>) -> Result<CliView, CliError> {
    scan_args(args, 0, false, false, false, None, seq![])
}

fn is_bytes(b: &[u8], lit: &Vec<u8>) -> (r: bool)
    ensures
        r == (b@ == lit@),
{
    crate::keymap::bytes_same(b, lit.as_slice())
}

/// The command the positional arguments make: `--discover` takes none, and
/// otherwise exactly a target and a file are needed; anything else is a
/// usage error.
pub proof fn lemma_command_rule(discover: bool, pos: Seq<Seq<char>>)
    ensures
        discover ==> command_of(discover, pos) == (if pos.len() == 0 {
            Ok::<CommandView, CliError>(CommandView::Discover)
        } else {
            Err(CliError::Usage)
        }),
        !discover ==> command_of(discover, pos) == (if pos.len() == 2 {
            Ok::<CommandView, CliError>(CommandView::Play { target: pos[0], file: pos[1] })
        } else {
            Err(CliError::Usage)
        }),
{
}

fn build_command(discover: bool, positionals: Vec<String>) -> (r: Result<Command, CliError>)
    ensures
        match (r, command_of(discover, positionals@.map_values(|s: String| s@))) {
            (Ok(c), Ok(v)) => (match c {
                Command::Discover => CommandView::Discover,
                Command::Play { target, file } => CommandView::Play {
                    target: target@,
                    file: file@,
                },
            }) == v,
            (Err(e), Err(f)) => e == f,
            _ => false,
        },
{
    if discover {
        if positionals.len() != 0 {
            return Err(CliError::Usage);
        }
        return Ok(Command::Discover);
    }
    if positionals.len() == 2 {
        let target = positionals[0].clone();
        let file = positionals[1].clone();
        Ok(Command::Play { target, file })
    } else {
        Err(CliError::Usage)
    }
}

/// Parse process arguments (excluding argv[0]).
pub fn parse(args: Vec<String>) -> (r: Result<Cli, CliError>)
    ensures
        match (r, parse_spec(args@.map_values(|s: String| s@))) {
            (Ok(c), Ok(v)) => c@ == v,
            (Err(e), Err(f)) => e == f,
            _ => false,
        },
{
    let ghost av = args@.map_values(|s: String| s@);
    let end = vec![45u8, 45];
    let help_short = vec![45u8, 104];
    let help_long = vec![45u8, 45, 104, 101, 108, 112];
    let verbose_short = vec![45u8, 118];
    let verbose_long = vec![45u8, 45, 118, 101, 114, 98, 111, 115, 101];
    let discover_long = vec![45u8, 45, 100, 105, 115, 99, 111, 118, 101, 114];
    let iface_short = vec![45u8, 105];
    let iface_long = vec![45u8, 45, 105, 102, 97, 99, 101];
    assert(end@ =~= opt_end());
    assert(help_short@ =~= opt_help_short());
    assert(help_long@ =~= opt_help_long());
    assert(verbose_short@ =~= opt_verbose_short());
    assert(verbose_long@ =~= opt_verbose_long());
    assert(discover_long@ =~= opt_discover());
    assert(iface_short@ =~= opt_iface_short());
    assert(iface_long@ =~= opt_iface_long());
    let mut bind: Option<[u8; 4]> = None;
    let mut verbose = false;
    let mut discover = false;
    let mut positionals: Vec<String> = Vec::new();
    let mut opts_done = false;
    let n = args.len();
    let mut i: usize = 0;
    assert(positionals@.map_values(|s: String| s@) =~= Seq::<Seq<char>>::empty());
    while i < n
        invariant
            n == args@.len(),
            av == args@.map_values(|s: String| s@),
            end@ == opt_end(),
            help_short@ == opt_help_short(),
            help_long@ == opt_help_long(),
            verbose_short@ == opt_verbose_short(),
            verbose_long@ == opt_verbose_long(),
            discover_long@ == opt_discover(),
            iface_short@ == opt_iface_short(),
            iface_long@ == opt_iface_long(),
            0 <= i <= n,
            parse_spec(av) == scan_args(
                av,
                i as int,
                opts_done,
                discover,
                verbose,
                match bind {
                    Some(ip) => Some(ip@),
                    None => None,
                },
                positionals@.map_values(|s: String| s@),
            ),
        decreases n - i,
    {
        let ghost before = positionals@.map_values(|s: String| s@);
        let arg = &args[i];
        let b = arg.as_str().as_bytes();
        assert(av[i as int] == arg@);
        if opts_done {
            positionals.push(arg.clone());
            assert(positionals@.map_values(|s: String| s@) =~= before.push(arg@));
            i += 1;
        } else if is_bytes(b, &end) {
            opts_done = true;
            i += 1;
        } else if is_bytes(b, &help_short) || is_bytes(b, &help_long) {
            return Err(CliError::Help);
        } else if is_bytes(b, &verbose_short) || is_bytes(b, &verbose_long) {
            verbose = true;
            i += 1;
        } else if is_bytes(b, &discover_long) {
            discover = true;
            i += 1;
        } else if is_bytes(b, &iface_short) || is_bytes(b, &iface_long) {
            if i + 1 >= n {
                return Err(CliError::Usage);
            }
            assert(av[i + 1] == args@[i + 1]@);
            let ip = match parse_ipv4(args[i + 1].as_str()) {
                Some(ip) => ip,
                None => {
                    return Err(CliError::Usage);
                },
            };
            bind = Some(ip);
            i += 2;
        } else if b.len() > 0 && b[0] == 45 {
            return Err(CliError::Usage);
        } else {
            positionals.push(arg.clone());
            assert(positionals@.map_values(|s: String| s@) =~= before.push(arg@));
            i += 1;
        }
    }
    let command = match build_command(discover, positionals) {
        Ok(c) => c,
        Err(e) => {
            return Err(e);
        },
    };
    Ok(Cli { command, bind, verbose })
}

} // verus!
