//! The commands and their arguments.

use vstd::prelude::*;
use vstd::string::*;

use crate::addr::Ipv4Addr;
use crate::daemon::{country_code, Config};
use crate::install::{Sources, LIBEXEC, STATE};
use crate::socket::SocketAddr;
use crate::text::{number_of, same, upper_of};

verus! {

pub const USAGE: &'static str = "usage:\n  mac-gate install --config FILE --awg-go FILE --awg FILE\n  mac-gate uninstall | on | off\n  mac-gate killswitch on|off [--state FILE]\n  mac-gate country CODE|auto [--state FILE]\n  mac-gate update [--state FILE]\n  mac-gate run --config FILE --state FILE [--journal FILE]\n      [--listen ADDR:PORT] [--tunnel-dns ADDR] [--libexec DIR] [--window-min N]\n      [--use-fakeip auto|off] [--system-dns]\n  mac-gate resolve --lists DIR --tunnel IF --network-dns ADDR\n      [--tunnel-dns ADDR] [--listen ADDR:PORT] [--use-fakeip] [--journal FILE]";

/// Seconds a host route lives unless the owner says so.
pub const WINDOW: u64 = 24 * 3600;

pub type Text = Seq<char>;

/// The resolver alone, on a tunnel someone else keeps up.
#[derive(Debug)]
pub struct Args {
    pub lists: String,
    pub tunnel: String,
    pub network_dns: Ipv4Addr,
    pub tunnel_dns: Ipv4Addr,
    pub listen: SocketAddr,
    pub use_fakeip: bool,
    pub journal: Option<String>,
}

#[derive(Debug)]
pub enum Cmd {
    Resolve(Args),
    Run(Config),
    /// The owner's reason for the kill switch, set or taken away.
    Killswitch { on: bool, state: String },
    /// The owner's country, or none to ask the services.
    Country { code: Option<String>, state: String },
    /// Every source fetched now.
    Update { state: String },
    Install(Sources),
    Uninstall,
    On,
    Off,
}

/// Arguments of `resolve` as a mathematical value.
pub struct Resolving {
    pub lists: Text,
    pub tunnel: Text,
    pub network_dns: Ipv4Addr,
    pub tunnel_dns: Ipv4Addr,
    pub listen: (Text, u16),
    pub use_fakeip: bool,
    pub journal: Option<Text>,
}

/// Arguments of `run` as a mathematical value.
pub struct Running {
    pub settings: Text,
    pub state: Text,
    pub journal: Option<Text>,
    pub listen: (Text, u16),
    pub tunnel_dns: Ipv4Addr,
    pub libexec: Text,
    pub window: u64,
    pub use_fakeip: bool,
    pub system_dns: bool,
}

/// A command as a mathematical value.
pub enum Order {
    Resolve(Resolving),
    Run(Running),
    Killswitch { on: bool, state: Text },
    Country { code: Option<Text>, state: Text },
    Update { state: Text },
    Install { config: Text, awg_go: Text, awg: Text },
    Uninstall,
    On,
    Off,
}

impl Args {
    pub open spec fn view(&self) -> Resolving {
        Resolving {
            lists: self.lists@,
            tunnel: self.tunnel@,
            network_dns: self.network_dns,
            tunnel_dns: self.tunnel_dns,
            listen: self.listen@,
            use_fakeip: self.use_fakeip,
            journal: crate::tunnel::text_seen(self.journal),
        }
    }
}

pub open spec fn running(c: Config) -> Running {
    Running {
        settings: c.settings@,
        state: c.state@,
        journal: crate::tunnel::text_seen(c.journal),
        listen: c.listen@,
        tunnel_dns: c.tunnel_dns,
        libexec: c.libexec@,
        window: c.window,
        use_fakeip: c.use_fakeip,
        system_dns: c.system_dns,
    }
}

impl Cmd {
    pub open spec fn view(&self) -> Order {
        match self {
            Cmd::Resolve(a) => Order::Resolve(a@),
            Cmd::Run(c) => Order::Run(running(*c)),
            Cmd::Killswitch { on, state } => Order::Killswitch { on: *on, state: state@ },
            Cmd::Country { code, state } => Order::Country {
                code: crate::tunnel::text_seen(*code),
                state: state@,
            },
            Cmd::Update { state } => Order::Update { state: state@ },
            Cmd::Install(s) => Order::Install {
                config: s.config@,
                awg_go: s.awg_go@,
                awg: s.awg@,
            },
            Cmd::Uninstall => Order::Uninstall,
            Cmd::On => Order::On,
            Cmd::Off => Order::Off,
        }
    }
}

pub open spec fn bad_value(flag: Text, value: Text) -> Text {
    flag + ": bad value "@ + value
}

pub open spec fn needs_value(flag: Text) -> Text {
    flag + " needs a value\n"@ + USAGE@
}

pub open spec fn unknown(flag: Text) -> Text {
    "unknown argument "@ + flag + "\n"@ + USAGE@
}

pub open spec fn is_required(flag: Text) -> Text {
    flag + " is required\n"@ + USAGE@
}

fn bad(flag: &str, value: &str) -> (r: String)
    ensures
        r@ == bad_value(flag@, value@),
{
    let mut s = flag.to_owned();
    s.append(": bad value ");
    s.append(value);
    s
}

fn lacks_value(flag: &str) -> (r: String)
    ensures
        r@ == needs_value(flag@),
{
    let mut s = flag.to_owned();
    s.append(" needs a value\n");
    s.append(USAGE);
    s
}

fn no_such(flag: &str) -> (r: String)
    ensures
        r@ == unknown(flag@),
{
    let mut s = String::from_str("unknown argument ");
    s.append(flag);
    s.append("\n");
    s.append(USAGE);
    s
}

fn required(flag: &str) -> (r: String)
    ensures
        r@ == is_required(flag@),
{
    let mut s = flag.to_owned();
    s.append(" is required\n");
    s.append(USAGE);
    s
}

/// The tunnel DNS unless the owner says so.
pub open spec fn tunnel_dns() -> Ipv4Addr {
    crate::addr::octets(1, 1, 1, 1)
}

pub open spec fn local(port: u16) -> (Text, u16) {
    (crate::addr::octets(127, 0, 0, 1).shown(), port)
}

// ---------------------------------------------------------------------
// resolve
// ---------------------------------------------------------------------

/// The arguments of `resolve` read so far.
#[verifier::ext_equal]
pub struct ResolveRead {
    pub lists: Option<Text>,
    pub tunnel: Option<Text>,
    pub network_dns: Option<Ipv4Addr>,
    pub tunnel_dns: Ipv4Addr,
    pub listen: (Text, u16),
    pub use_fakeip: bool,
    pub journal: Option<Text>,
}

/// One flag with its value.
pub open spec fn resolve_flag(o: ResolveRead, flag: Text, value: Text) -> Result<
    ResolveRead,
    Text,
> {
    if flag == "--lists"@ {
        Ok(ResolveRead { lists: Some(value), ..o })
    } else if flag == "--tunnel"@ {
        Ok(ResolveRead { tunnel: Some(value), ..o })
    } else if flag == "--network-dns"@ {
        match crate::addr::address(value) {
            Some(a) => Ok(ResolveRead { network_dns: Some(a), ..o }),
            None => Err(bad_value(flag, value)),
        }
    } else if flag == "--tunnel-dns"@ {
        match crate::addr::address(value) {
            Some(a) => Ok(ResolveRead { tunnel_dns: a, ..o }),
            None => Err(bad_value(flag, value)),
        }
    } else if flag == "--listen"@ {
        match crate::socket::socket(value) {
            Some(a) => Ok(ResolveRead { listen: a, ..o }),
            None => Err(bad_value(flag, value)),
        }
    } else if flag == "--journal"@ {
        Ok(ResolveRead { journal: Some(value), ..o })
    } else {
        Err(unknown(flag))
    }
}

pub open spec fn resolve_flags(o: ResolveRead, args: Seq<Text>) -> Result<ResolveRead, Text>
    decreases args.len(),
{
    if args.len() == 0 {
        Ok(o)
    } else if args[0] == "--use-fakeip"@ {
        resolve_flags(ResolveRead { use_fakeip: true, ..o }, args.skip(1))
    } else if args.len() < 2 {
        Err(needs_value(args[0]))
    } else {
        match resolve_flag(o, args[0], args[1]) {
            Ok(p) => resolve_flags(p, args.skip(2)),
            Err(e) => Err(e),
        }
    }
}

/// Not 5353: that is mDNS, held by mDNSResponder.
pub open spec fn resolve_defaults() -> ResolveRead {
    ResolveRead {
        lists: None,
        tunnel: None,
        network_dns: None,
        tunnel_dns: tunnel_dns(),
        listen: local(5300),
        use_fakeip: false,
        journal: None,
    }
}

pub open spec fn resolve_order(args: Seq<Text>) -> Result<Resolving, Text> {
    match resolve_flags(resolve_defaults(), args) {
        Err(e) => Err(e),
        Ok(o) => match (o.lists, o.tunnel, o.network_dns) {
            (None, _, _) => Err(is_required("--lists"@)),
            (Some(_), None, _) => Err(is_required("--tunnel"@)),
            (Some(_), Some(_), None) => Err(is_required("--network-dns"@)),
            (Some(lists), Some(tunnel), Some(network_dns)) => Ok(
                Resolving {
                    lists,
                    tunnel,
                    network_dns,
                    tunnel_dns: o.tunnel_dns,
                    listen: o.listen,
                    use_fakeip: o.use_fakeip,
                    journal: o.journal,
                },
            ),
        },
    }
}

struct ResolveSoFar {
    lists: Option<String>,
    tunnel: Option<String>,
    network_dns: Option<Ipv4Addr>,
    tunnel_dns: Ipv4Addr,
    listen: SocketAddr,
    use_fakeip: bool,
    journal: Option<String>,
}

impl ResolveSoFar {
    spec fn view(&self) -> ResolveRead {
        ResolveRead {
            lists: crate::tunnel::text_seen(self.lists),
            tunnel: crate::tunnel::text_seen(self.tunnel),
            network_dns: self.network_dns,
            tunnel_dns: self.tunnel_dns,
            listen: self.listen@,
            use_fakeip: self.use_fakeip,
            journal: crate::tunnel::text_seen(self.journal),
        }
    }

    fn flag(&mut self, flag: &str, value: &str) -> (r: Result<(), String>)
        ensures
            match r {
                Ok(()) => resolve_flag(old(self)@, flag@, value@) == Ok::<ResolveRead, Text>(
                    final(self)@,
                ),
                Err(e) => resolve_flag(old(self)@, flag@, value@) == Err::<ResolveRead, Text>(e@),
            },
    {
        if same(flag, "--lists") {
            self.lists = Some(value.to_owned());
        } else if same(flag, "--tunnel") {
            self.tunnel = Some(value.to_owned());
        } else if same(flag, "--network-dns") {
            match Ipv4Addr::parse(value) {
                Some(a) => {
                    self.network_dns = Some(a);
                },
                None => return Err(bad(flag, value)),
            }
        } else if same(flag, "--tunnel-dns") {
            match Ipv4Addr::parse(value) {
                Some(a) => {
                    self.tunnel_dns = a;
                },
                None => return Err(bad(flag, value)),
            }
        } else if same(flag, "--listen") {
            match SocketAddr::parse(value) {
                Some(a) => {
                    self.listen = a;
                },
                None => return Err(bad(flag, value)),
            }
        } else if same(flag, "--journal") {
            self.journal = Some(value.to_owned());
        } else {
            return Err(no_such(flag));
        }
        Ok(())
    }
}

/// The arguments from `from` on.
pub open spec fn from_arg(args: &Vec<String>, from: int) -> Seq<Text> {
    crate::text::seen(args@).skip(from)
}

fn parse_resolve(args: &Vec<String>, from: usize) -> (r: Result<Args, String>)
    requires
        from <= args@.len(),
    ensures
        match r {
            Ok(a) => resolve_order(from_arg(args, from as int)) == Ok::<Resolving, Text>(a@),
            Err(e) => resolve_order(from_arg(args, from as int)) == Err::<Resolving, Text>(e@),
        },
{
    let mut o = ResolveSoFar {
        lists: None,
        tunnel: None,
        network_dns: None,
        tunnel_dns: Ipv4Addr::new(1, 1, 1, 1),
        listen: SocketAddr::new(Ipv4Addr::new(127, 0, 0, 1), 5300),
        use_fakeip: false,
        journal: None,
    };
    let ghost all = crate::text::seen(args@);
    let ghost want = resolve_flags(resolve_defaults(), all.skip(from as int));
    let n = args.len();
    let mut i: usize = from;
    proof {
        assert(o@ =~= resolve_defaults());
    }
    while i < n
        invariant
            i <= n,
            n == args@.len(),
            all == crate::text::seen(args@),
            from <= n,
            want == resolve_flags(resolve_defaults(), all.skip(from as int)),
            want == resolve_flags(o@, all.skip(i as int)),
        decreases n - i,
    {
        let ghost rest = all.skip(i as int);
        proof {
            assert(rest[0] == args@[i as int]@);
        }
        let flag = args[i].as_str();
        if same(flag, "--use-fakeip") {
            o.use_fakeip = true;
            proof {
                assert(rest.skip(1) =~= all.skip(i + 1));
            }
            i += 1;
            continue;
        }
        if n - i < 2 {
            return Err(lacks_value(flag));
        }
        proof {
            assert(rest[1] == args@[i + 1]@);
            assert(rest.skip(2) =~= all.skip(i + 2));
        }
        match o.flag(flag, args[i + 1].as_str()) {
            Ok(()) => {},
            Err(e) => return Err(e),
        }
        i += 2;
    }
    proof {
        assert(all.skip(i as int).len() == 0);
    }
    let lists = match o.lists {
        Some(v) => v,
        None => return Err(required("--lists")),
    };
    let tunnel = match o.tunnel {
        Some(v) => v,
        None => return Err(required("--tunnel")),
    };
    let network_dns = match o.network_dns {
        Some(v) => v,
        None => return Err(required("--network-dns")),
    };
    Ok(
        Args {
            lists,
            tunnel,
            network_dns,
            tunnel_dns: o.tunnel_dns,
            listen: o.listen,
            use_fakeip: o.use_fakeip,
            journal: o.journal,
        },
    )
}

// ---------------------------------------------------------------------
// run
// ---------------------------------------------------------------------

/// The arguments of `run` read so far.
#[verifier::ext_equal]
pub struct RunRead {
    pub config: Option<Text>,
    pub state: Option<Text>,
    pub journal: Option<Text>,
    pub listen: (Text, u16),
    pub tunnel_dns: Ipv4Addr,
    pub libexec: Text,
    pub window: u64,
    pub use_fakeip: bool,
    pub system_dns: bool,
}

pub open spec fn run_defaults() -> RunRead {
    RunRead {
        config: None,
        state: None,
        journal: None,
        listen: local(53),
        tunnel_dns: tunnel_dns(),
        libexec: LIBEXEC@,
        window: WINDOW,
        use_fakeip: true,
        system_dns: false,
    }
}

/// Minutes as seconds, as many as fit.
pub open spec fn minutes(n: nat) -> u64 {
    if n * 60 <= u64::MAX {
        (n * 60) as u64
    } else {
        u64::MAX
    }
}

/// One flag with its value.
pub open spec fn run_flag(o: RunRead, flag: Text, value: Text) -> Result<RunRead, Text> {
    if flag == "--config"@ {
        Ok(RunRead { config: Some(value), ..o })
    } else if flag == "--state"@ {
        Ok(RunRead { state: Some(value), ..o })
    } else if flag == "--journal"@ {
        Ok(RunRead { journal: Some(value), ..o })
    } else if flag == "--listen"@ {
        match crate::socket::socket(value) {
            Some(a) => Ok(RunRead { listen: a, ..o }),
            None => Err(bad_value(flag, value)),
        }
    } else if flag == "--tunnel-dns"@ {
        match crate::addr::address(value) {
            Some(a) => Ok(RunRead { tunnel_dns: a, ..o }),
            None => Err(bad_value(flag, value)),
        }
    } else if flag == "--libexec"@ {
        Ok(RunRead { libexec: value, ..o })
    } else if flag == "--window-min"@ {
        match crate::text::number(value, u64::MAX as nat) {
            Some(n) => Ok(RunRead { window: minutes(n), ..o }),
            None => Err(bad_value(flag, value)),
        }
    } else if flag == "--use-fakeip"@ {
        if value == "auto"@ {
            Ok(RunRead { use_fakeip: true, ..o })
        } else if value == "off"@ {
            Ok(RunRead { use_fakeip: false, ..o })
        } else {
            Err(bad_value(flag, value))
        }
    } else {
        Err(unknown(flag))
    }
}

pub open spec fn run_flags(o: RunRead, args: Seq<Text>) -> Result<RunRead, Text>
    decreases args.len(),
{
    if args.len() == 0 {
        Ok(o)
    } else if args[0] == "--system-dns"@ {
        run_flags(RunRead { system_dns: true, ..o }, args.skip(1))
    } else if args.len() < 2 {
        Err(needs_value(args[0]))
    } else {
        match run_flag(o, args[0], args[1]) {
            Ok(p) => run_flags(p, args.skip(2)),
            Err(e) => Err(e),
        }
    }
}

pub open spec fn run_order(args: Seq<Text>) -> Result<Running, Text> {
    match run_flags(run_defaults(), args) {
        Err(e) => Err(e),
        Ok(o) => match (o.config, o.state) {
            (None, _) => Err(is_required("--config"@)),
            (Some(_), None) => Err(is_required("--state"@)),
            (Some(settings), Some(state)) => Ok(
                Running {
                    settings,
                    state,
                    journal: o.journal,
                    listen: o.listen,
                    tunnel_dns: o.tunnel_dns,
                    libexec: o.libexec,
                    window: o.window,
                    use_fakeip: o.use_fakeip,
                    system_dns: o.system_dns,
                },
            ),
        },
    }
}

struct RunSoFar {
    config: Option<String>,
    state: Option<String>,
    journal: Option<String>,
    listen: SocketAddr,
    tunnel_dns: Ipv4Addr,
    libexec: String,
    window: u64,
    use_fakeip: bool,
    system_dns: bool,
}

impl RunSoFar {
    spec fn view(&self) -> RunRead {
        RunRead {
            config: crate::tunnel::text_seen(self.config),
            state: crate::tunnel::text_seen(self.state),
            journal: crate::tunnel::text_seen(self.journal),
            listen: self.listen@,
            tunnel_dns: self.tunnel_dns,
            libexec: self.libexec@,
            window: self.window,
            use_fakeip: self.use_fakeip,
            system_dns: self.system_dns,
        }
    }

    fn flag(&mut self, flag: &str, value: &str) -> (r: Result<(), String>)
        ensures
            match r {
                Ok(()) => run_flag(old(self)@, flag@, value@) == Ok::<RunRead, Text>(final(self)@),
                Err(e) => run_flag(old(self)@, flag@, value@) == Err::<RunRead, Text>(e@),
            },
    {
        if same(flag, "--config") {
            self.config = Some(value.to_owned());
        } else if same(flag, "--state") {
            self.state = Some(value.to_owned());
        } else if same(flag, "--journal") {
            self.journal = Some(value.to_owned());
        } else if same(flag, "--listen") {
            match SocketAddr::parse(value) {
                Some(a) => {
                    self.listen = a;
                },
                None => return Err(bad(flag, value)),
            }
        } else if same(flag, "--tunnel-dns") {
            match Ipv4Addr::parse(value) {
                Some(a) => {
                    self.tunnel_dns = a;
                },
                None => return Err(bad(flag, value)),
            }
        } else if same(flag, "--libexec") {
            self.libexec = value.to_owned();
        } else if same(flag, "--window-min") {
            match number_of(value, u64::MAX) {
                Some(n) => {
                    self.window = if n <= u64::MAX / 60 {
                        n * 60
                    } else {
                        u64::MAX
                    };
                },
                None => return Err(bad(flag, value)),
            }
        } else if same(flag, "--use-fakeip") {
            if same(value, "auto") {
                self.use_fakeip = true;
            } else if same(value, "off") {
                self.use_fakeip = false;
            } else {
                return Err(bad(flag, value));
            }
        } else {
            return Err(no_such(flag));
        }
        Ok(())
    }
}

fn parse_run(args: &Vec<String>, from: usize) -> (r: Result<Config, String>)
    requires
        from <= args@.len(),
    ensures
        match r {
            Ok(c) => run_order(from_arg(args, from as int)) == Ok::<Running, Text>(running(c)),
            Err(e) => run_order(from_arg(args, from as int)) == Err::<Running, Text>(e@),
        },
{
    let mut o = RunSoFar {
        config: None,
        state: None,
        journal: None,
        listen: SocketAddr::new(Ipv4Addr::new(127, 0, 0, 1), 53),
        tunnel_dns: Ipv4Addr::new(1, 1, 1, 1),
        libexec: LIBEXEC.to_owned(),
        window: WINDOW,
        use_fakeip: true,
        system_dns: false,
    };
    let ghost all = crate::text::seen(args@);
    let ghost want = run_flags(run_defaults(), all.skip(from as int));
    let n = args.len();
    let mut i: usize = from;
    proof {
        assert(o@ =~= run_defaults());
    }
    while i < n
        invariant
            i <= n,
            n == args@.len(),
            all == crate::text::seen(args@),
            from <= n,
            want == run_flags(run_defaults(), all.skip(from as int)),
            want == run_flags(o@, all.skip(i as int)),
        decreases n - i,
    {
        let ghost rest = all.skip(i as int);
        proof {
            assert(rest[0] == args@[i as int]@);
        }
        let flag = args[i].as_str();
        if same(flag, "--system-dns") {
            o.system_dns = true;
            proof {
                assert(rest.skip(1) =~= all.skip(i + 1));
            }
            i += 1;
            continue;
        }
        if n - i < 2 {
            return Err(lacks_value(flag));
        }
        proof {
            assert(rest[1] == args@[i + 1]@);
            assert(rest.skip(2) =~= all.skip(i + 2));
        }
        match o.flag(flag, args[i + 1].as_str()) {
            Ok(()) => {},
            Err(e) => return Err(e),
        }
        i += 2;
    }
    proof {
        assert(all.skip(i as int).len() == 0);
    }
    let settings = match o.config {
        Some(v) => v,
        None => return Err(required("--config")),
    };
    let state = match o.state {
        Some(v) => v,
        None => return Err(required("--state")),
    };
    Ok(
        Config {
            settings,
            state,
            journal: o.journal,
            listen: o.listen,
            tunnel_dns: o.tunnel_dns,
            libexec: o.libexec,
            window: o.window,
            use_fakeip: o.use_fakeip,
            system_dns: o.system_dns,
        },
    )
}

// ---------------------------------------------------------------------
// install
// ---------------------------------------------------------------------

/// The arguments of `install` read so far.
#[verifier::ext_equal]
pub struct InstallRead {
    pub config: Option<Text>,
    pub awg_go: Option<Text>,
    pub awg: Option<Text>,
}

pub open spec fn install_flag(o: InstallRead, flag: Text, value: Text) -> Result<
    InstallRead,
    Text,
> {
    if flag == "--config"@ {
        Ok(InstallRead { config: Some(value), ..o })
    } else if flag == "--awg-go"@ {
        Ok(InstallRead { awg_go: Some(value), ..o })
    } else if flag == "--awg"@ {
        Ok(InstallRead { awg: Some(value), ..o })
    } else {
        Err(unknown(flag))
    }
}

pub open spec fn install_flags(o: InstallRead, args: Seq<Text>) -> Result<InstallRead, Text>
    decreases args.len(),
{
    if args.len() == 0 {
        Ok(o)
    } else if args[0] == "--conf"@ {
        Err("--conf: the tunnels are in the settings now, [[tunnel]] with conf = FILE"@)
    } else if args.len() < 2 {
        Err(needs_value(args[0]))
    } else {
        match install_flag(o, args[0], args[1]) {
            Ok(p) => install_flags(p, args.skip(2)),
            Err(e) => Err(e),
        }
    }
}

pub open spec fn install_defaults() -> InstallRead {
    InstallRead { config: None, awg_go: None, awg: None }
}

pub open spec fn install_order(args: Seq<Text>) -> Result<(Text, Text, Text), Text> {
    match install_flags(install_defaults(), args) {
        Err(e) => Err(e),
        Ok(o) => match (o.config, o.awg_go, o.awg) {
            (None, _, _) => Err(is_required("--config"@)),
            (Some(_), None, _) => Err(is_required("--awg-go"@)),
            (Some(_), Some(_), None) => Err(is_required("--awg"@)),
            (Some(c), Some(g), Some(a)) => Ok((c, g, a)),
        },
    }
}

fn parse_install(args: &Vec<String>, from: usize) -> (r: Result<Sources, String>)
    requires
        from <= args@.len(),
    ensures
        match r {
            Ok(s) => install_order(from_arg(args, from as int)) == Ok::<(Text, Text, Text), Text>(
                (s.config@, s.awg_go@, s.awg@),
            ),
            Err(e) => install_order(from_arg(args, from as int)) == Err::<
                (Text, Text, Text),
                Text,
            >(e@),
        },
{
    let mut config: Option<String> = None;
    let mut awg_go: Option<String> = None;
    let mut awg: Option<String> = None;
    let ghost all = crate::text::seen(args@);
    let ghost want = install_flags(install_defaults(), all.skip(from as int));
    let n = args.len();
    let mut i: usize = from;
    while i < n
        invariant
            i <= n,
            n == args@.len(),
            all == crate::text::seen(args@),
            from <= n,
            want == install_flags(install_defaults(), all.skip(from as int)),
            want == install_flags(
                InstallRead {
                    config: crate::tunnel::text_seen(config),
                    awg_go: crate::tunnel::text_seen(awg_go),
                    awg: crate::tunnel::text_seen(awg),
                },
                all.skip(i as int),
            ),
        decreases n - i,
    {
        let ghost rest = all.skip(i as int);
        proof {
            assert(rest[0] == args@[i as int]@);
        }
        let flag = args[i].as_str();
        if same(flag, "--conf") {
            return Err(
                String::from_str(
                    "--conf: the tunnels are in the settings now, [[tunnel]] with conf = FILE",
                ),
            );
        }
        if n - i < 2 {
            return Err(lacks_value(flag));
        }
        proof {
            assert(rest[1] == args@[i + 1]@);
            assert(rest.skip(2) =~= all.skip(i + 2));
        }
        let value = args[i + 1].clone();
        if same(flag, "--config") {
            config = Some(value);
        } else if same(flag, "--awg-go") {
            awg_go = Some(value);
        } else if same(flag, "--awg") {
            awg = Some(value);
        } else {
            return Err(no_such(flag));
        }
        i += 2;
    }
    proof {
        assert(all.skip(i as int).len() == 0);
    }
    let config = match config {
        Some(v) => v,
        None => return Err(required("--config")),
    };
    let awg_go = match awg_go {
        Some(v) => v,
        None => return Err(required("--awg-go")),
    };
    let awg = match awg {
        Some(v) => v,
        None => return Err(required("--awg")),
    };
    Ok(Sources { config, awg_go, awg })
}

// ---------------------------------------------------------------------
// The short commands.
// ---------------------------------------------------------------------

/// An optional `--state FILE`, which defaults to that of the installed
/// service, and nothing after it.
pub open spec fn state_order(args: Seq<Text>) -> Result<Text, Text> {
    if args.len() == 0 {
        Ok(STATE@)
    } else if args.len() == 2 && args[0] == "--state"@ {
        Ok(args[1])
    } else {
        Err(USAGE@)
    }
}

fn state_arg(args: &Vec<String>, from: usize) -> (r: Result<String, String>)
    requires
        from <= args@.len(),
    ensures
        match r {
            Ok(s) => state_order(from_arg(args, from as int)) == Ok::<Text, Text>(s@),
            Err(e) => state_order(from_arg(args, from as int)) == Err::<Text, Text>(e@),
        },
{
    let ghost rest = from_arg(args, from as int);
    let n = args.len();
    if from == n {
        return Ok(STATE.to_owned());
    }
    if n - from == 2 {
        proof {
            assert(rest[0] == args@[from as int]@);
            assert(rest[1] == args@[from + 1]@);
        }
        if same(args[from].as_str(), "--state") {
            return Ok(args[from + 1].clone());
        }
    }
    Err(USAGE.to_owned())
}

pub open spec fn killswitch_order(args: Seq<Text>) -> Result<Order, Text> {
    if args.len() == 0 || (args[0] != "on"@ && args[0] != "off"@) {
        Err(USAGE@)
    } else {
        match state_order(args.skip(1)) {
            Ok(state) => Ok(Order::Killswitch { on: args[0] == "on"@, state }),
            Err(e) => Err(e),
        }
    }
}

/// The country in capitals.
pub open spec fn country_order(args: Seq<Text>) -> Result<Order, Text> {
    if args.len() == 0 {
        Err(USAGE@)
    } else {
        let upper = crate::text::upper(args[0]);
        if args[0] != "auto"@ && crate::daemon::code_in(upper) is None {
            Err("country: "@ + args[0] + " is not a code of two letters\n"@ + USAGE@)
        } else {
            match state_order(args.skip(1)) {
                Ok(state) => Ok(
                    Order::Country {
                        code: if args[0] == "auto"@ {
                            None
                        } else {
                            Some(upper)
                        },
                        state,
                    },
                ),
                Err(e) => Err(e),
            }
        }
    }
}

/// A command that takes no arguments.
pub open spec fn bare_order(args: Seq<Text>, order: Order) -> Result<Order, Text> {
    if args.len() == 0 {
        Ok(order)
    } else {
        Err(USAGE@)
    }
}

/// What a command line asks for, or what is wrong with it.
pub open spec fn order(args: Seq<Text>) -> Result<Order, Text> {
    let rest = args.skip(1);
    if args.len() == 0 {
        Err(USAGE@)
    } else if args[0] == "resolve"@ {
        match resolve_order(rest) {
            Ok(a) => Ok(Order::Resolve(a)),
            Err(e) => Err(e),
        }
    } else if args[0] == "run"@ {
        match run_order(rest) {
            Ok(c) => Ok(Order::Run(c)),
            Err(e) => Err(e),
        }
    } else if args[0] == "killswitch"@ {
        killswitch_order(rest)
    } else if args[0] == "country"@ {
        country_order(rest)
    } else if args[0] == "update"@ {
        match state_order(rest) {
            Ok(state) => Ok(Order::Update { state }),
            Err(e) => Err(e),
        }
    } else if args[0] == "install"@ {
        match install_order(rest) {
            Ok((config, awg_go, awg)) => Ok(Order::Install { config, awg_go, awg }),
            Err(e) => Err(e),
        }
    } else if args[0] == "uninstall"@ {
        bare_order(rest, Order::Uninstall)
    } else if args[0] == "on"@ {
        bare_order(rest, Order::On)
    } else if args[0] == "off"@ {
        bare_order(rest, Order::Off)
    } else {
        Err(USAGE@)
    }
}

fn bare(args: &Vec<String>, cmd: Cmd) -> (r: Result<Cmd, String>)
    requires
        args@.len() > 0,
    ensures
        match r {
            Ok(c) => bare_order(from_arg(args, 1), cmd@) == Ok::<Order, Text>(c@),
            Err(e) => bare_order(from_arg(args, 1), cmd@) == Err::<Order, Text>(e@),
        },
{
    if args.len() == 1 {
        Ok(cmd)
    } else {
        Err(USAGE.to_owned())
    }
}

fn parse_killswitch(args: &Vec<String>) -> (r: Result<Cmd, String>)
    requires
        args@.len() > 0,
    ensures
        match r {
            Ok(c) => killswitch_order(from_arg(args, 1)) == Ok::<Order, Text>(c@),
            Err(e) => killswitch_order(from_arg(args, 1)) == Err::<Order, Text>(e@),
        },
{
    let ghost rest = from_arg(args, 1);
    if args.len() < 2 {
        return Err(USAGE.to_owned());
    }
    proof {
        assert(rest[0] == args@[1]@);
        assert(rest.skip(1) =~= from_arg(args, 2));
    }
    let on = same(args[1].as_str(), "on");
    if !on && !same(args[1].as_str(), "off") {
        return Err(USAGE.to_owned());
    }
    match state_arg(args, 2) {
        Ok(state) => Ok(Cmd::Killswitch { on, state }),
        Err(e) => Err(e),
    }
}

fn parse_country(args: &Vec<String>) -> (r: Result<Cmd, String>)
    requires
        args@.len() > 0,
    ensures
        match r {
            Ok(c) => country_order(from_arg(args, 1)) == Ok::<Order, Text>(c@),
            Err(e) => country_order(from_arg(args, 1)) == Err::<Order, Text>(e@),
        },
{
    let ghost rest = from_arg(args, 1);
    if args.len() < 2 {
        return Err(USAGE.to_owned());
    }
    proof {
        assert(rest[0] == args@[1]@);
        assert(rest.skip(1) =~= from_arg(args, 2));
    }
    let given = args[1].as_str();
    let code: Option<String> = if same(given, "auto") {
        None
    } else {
        let upper = upper_of(given);
        if country_code(upper.as_str()).is_none() {
            let mut s = String::from_str("country: ");
            s.append(given);
            s.append(" is not a code of two letters\n");
            s.append(USAGE);
            return Err(s);
        }
        Some(upper)
    };
    match state_arg(args, 2) {
        Ok(state) => Ok(Cmd::Country { code, state }),
        Err(e) => Err(e),
    }
}

/// The command of a command line, the name of the program apart.
pub fn parse_args(args: &Vec<String>) -> (r: Result<Cmd, String>)
    ensures
        match r {
            Ok(c) => order(crate::text::seen(args@)) == Ok::<Order, Text>(c@),
            Err(e) => order(crate::text::seen(args@)) == Err::<Order, Text>(e@),
        },
{
    let ghost all = crate::text::seen(args@);
    if args.len() == 0 {
        return Err(USAGE.to_owned());
    }
    proof {
        assert(all[0] == args@[0]@);
    }
    let name = args[0].as_str();
    if same(name, "resolve") {
        match parse_resolve(args, 1) {
            Ok(a) => Ok(Cmd::Resolve(a)),
            Err(e) => Err(e),
        }
    } else if same(name, "run") {
        match parse_run(args, 1) {
            Ok(c) => Ok(Cmd::Run(c)),
            Err(e) => Err(e),
        }
    } else if same(name, "killswitch") {
        parse_killswitch(args)
    } else if same(name, "country") {
        parse_country(args)
    } else if same(name, "update") {
        match state_arg(args, 1) {
            Ok(state) => Ok(Cmd::Update { state }),
            Err(e) => Err(e),
        }
    } else if same(name, "install") {
        match parse_install(args, 1) {
            Ok(s) => Ok(Cmd::Install(s)),
            Err(e) => Err(e),
        }
    } else if same(name, "uninstall") {
        bare(args, Cmd::Uninstall)
    } else if same(name, "on") {
        bare(args, Cmd::On)
    } else if same(name, "off") {
        bare(args, Cmd::Off)
    } else {
        Err(USAGE.to_owned())
    }
}

// ---------------------------------------------------------------------
// Laws.
// ---------------------------------------------------------------------

proof fn lemma_flags_differ()
    ensures
        "run"@ != "resolve"@,
        "--config"@ != "--system-dns"@,
        "--state"@ != "--system-dns"@,
        "--journal"@ != "--system-dns"@,
        "--libexec"@ != "--system-dns"@,
        "--state"@ != "--config"@,
        "--journal"@ != "--config"@,
        "--libexec"@ != "--config"@,
        "--journal"@ != "--state"@,
        "--libexec"@ != "--state"@,
        "--libexec"@ != "--journal"@,
        "--libexec"@ != "--listen"@,
        "--libexec"@ != "--tunnel-dns"@,
{
    reveal_strlit("run");
    reveal_strlit("resolve");
    reveal_strlit("--config");
    reveal_strlit("--system-dns");
    reveal_strlit("--state");
    reveal_strlit("--journal");
    reveal_strlit("--libexec");
    reveal_strlit("--listen");
    reveal_strlit("--tunnel-dns");
    assert("run"@.len() == 3 && "resolve"@.len() == 7);
    assert("--system-dns"@.len() == 12 && "--tunnel-dns"@.len() == 12);
    assert("--journal"@.len() == 9 && "--libexec"@.len() == 9);
    assert("--state"@.len() == 7 && "--config"@.len() == 8 && "--listen"@.len() == 8);
    assert("--journal"@[2] == 'j' && "--libexec"@[2] == 'l');
}

/// The service that is installed starts: its arguments are those of the
/// daemon, on the installed settings and the state, as the DNS of the Mac.
pub proof fn lemma_the_service_starts()
    ensures
        order(crate::install::service_args().skip(1)) == Ok::<Order, Text>(
            Order::Run(
                Running {
                    settings: crate::install::settings_file(),
                    state: STATE@,
                    journal: Some(crate::install::JOURNAL@),
                    listen: local(53),
                    tunnel_dns: tunnel_dns(),
                    libexec: LIBEXEC@,
                    window: WINDOW,
                    use_fakeip: true,
                    system_dns: true,
                },
            ),
        ),
{
    lemma_flags_differ();
    let a = crate::install::service_args().skip(1);
    let r = a.skip(1);
    let o = run_defaults();
    let o1 = RunRead { config: Some(crate::install::settings_file()), ..o };
    let o2 = RunRead { state: Some(STATE@), ..o1 };
    let o3 = RunRead { journal: Some(crate::install::JOURNAL@), ..o2 };
    let o4 = RunRead { libexec: LIBEXEC@, ..o3 };
    let o5 = RunRead { system_dns: true, ..o4 };
    assert(r.len() == 9);
    assert(r[0] == "--config"@ && r[1] == crate::install::settings_file());
    assert(run_flags(o, r) == run_flags(o1, r.skip(2)));
    let r2 = r.skip(2);
    assert(r2[0] == "--state"@ && r2[1] == STATE@);
    assert(run_flags(o1, r2) == run_flags(o2, r2.skip(2)));
    let r3 = r2.skip(2);
    assert(r3[0] == "--journal"@ && r3[1] == crate::install::JOURNAL@);
    assert(run_flags(o2, r3) == run_flags(o3, r3.skip(2)));
    let r4 = r3.skip(2);
    assert(r4[0] == "--libexec"@ && r4[1] == LIBEXEC@);
    assert(run_flags(o3, r4) == run_flags(o4, r4.skip(2)));
    let r5 = r4.skip(2);
    assert(r5[0] == "--system-dns"@ && r5.len() == 1);
    assert(run_flags(o4, r5) == run_flags(o5, r5.skip(1)));
    assert(r5.skip(1).len() == 0);
}

/// Every flag of `run` sets what it names, and nothing else; a value that
/// is not of its kind is refused, and so is a flag that there is not.
pub proof fn lemma_what_run_takes(o: RunRead, v: Text, f: Text)
    ensures
        run_flag(o, "--config"@, v) == Ok::<RunRead, Text>((RunRead { config: Some(v), ..o })),
        run_flag(o, "--state"@, v) == Ok::<RunRead, Text>((RunRead { state: Some(v), ..o })),
        run_flag(o, "--journal"@, v) == Ok::<RunRead, Text>((RunRead { journal: Some(v), ..o })),
        run_flag(o, "--libexec"@, v) == Ok::<RunRead, Text>((RunRead { libexec: v, ..o })),
        run_flag(o, "--listen"@, v) == match crate::socket::socket(v) {
            Some(a) => Ok::<RunRead, Text>((RunRead { listen: a, ..o })),
            None => Err::<RunRead, Text>("--listen"@ + ": bad value "@ + v),
        },
        run_flag(o, "--tunnel-dns"@, v) == match crate::addr::address(v) {
            Some(a) => Ok::<RunRead, Text>((RunRead { tunnel_dns: a, ..o })),
            None => Err::<RunRead, Text>("--tunnel-dns"@ + ": bad value "@ + v),
        },
        run_flag(o, "--window-min"@, v) == match crate::text::number(v, u64::MAX as nat) {
            Some(n) => Ok::<RunRead, Text>((RunRead { window: minutes(n), ..o })),
            None => Err::<RunRead, Text>("--window-min"@ + ": bad value "@ + v),
        },
        run_flag(o, "--use-fakeip"@, v) == (if v == "auto"@ {
            Ok::<RunRead, Text>((RunRead { use_fakeip: true, ..o }))
        } else if v == "off"@ {
            Ok::<RunRead, Text>((RunRead { use_fakeip: false, ..o }))
        } else {
            Err::<RunRead, Text>("--use-fakeip"@ + ": bad value "@ + v)
        }),
        run_flag(o, f, v) is Err ==> run_flag(o, f, v) == Err::<RunRead, Text>(
            f + ": bad value "@ + v,
        ) || run_flag(o, f, v) == Err::<RunRead, Text>("unknown argument "@ + f + "\n"@ + USAGE@),
{
    lemma_how_flags_are_spelled();
}

proof fn lemma_how_flags_are_spelled()
    ensures
        "--config"@.len() == 8 && "--config"@[2] == 'c',
        "--state"@.len() == 7 && "--state"@[2] == 's',
        "--journal"@.len() == 9 && "--journal"@[2] == 'j',
        "--libexec"@.len() == 9 && "--libexec"@[2] == 'l',
        "--listen"@.len() == 8 && "--listen"@[2] == 'l',
        "--lists"@.len() == 7 && "--lists"@[2] == 'l',
        "--tunnel-dns"@.len() == 12 && "--tunnel-dns"@[2] == 't',
        "--tunnel"@.len() == 8 && "--tunnel"@[2] == 't',
        "--network-dns"@.len() == 13 && "--network-dns"@[2] == 'n',
        "--window-min"@.len() == 12 && "--window-min"@[2] == 'w',
        "--use-fakeip"@.len() == 12 && "--use-fakeip"@[2] == 'u',
        "--system-dns"@.len() == 12 && "--system-dns"@[2] == 's',
        "--awg-go"@.len() == 8 && "--awg-go"@[2] == 'a',
        "--awg"@.len() == 5 && "--awg"@[2] == 'a',
        "--conf"@.len() == 6 && "--conf"@[2] == 'c',
        "auto"@.len() == 4,
        "off"@.len() == 3,
        "on"@.len() == 2,
{
    reveal_strlit("--config");
    reveal_strlit("--state");
    reveal_strlit("--journal");
    reveal_strlit("--libexec");
    reveal_strlit("--listen");
    reveal_strlit("--lists");
    reveal_strlit("--tunnel-dns");
    reveal_strlit("--tunnel");
    reveal_strlit("--network-dns");
    reveal_strlit("--window-min");
    reveal_strlit("--use-fakeip");
    reveal_strlit("--system-dns");
    reveal_strlit("--awg-go");
    reveal_strlit("--awg");
    reveal_strlit("--conf");
    reveal_strlit("auto");
    reveal_strlit("off");
    reveal_strlit("on");
}

/// The flags of `run` are read from the first to the last, each with the
/// value behind it, but for the one that has none; the first that is
/// refused ends it.
pub proof fn lemma_how_run_is_read(o: RunRead, f: Text, v: Text, rest: Seq<Text>)
    ensures
        run_flags(o, seq![]) == Ok::<RunRead, Text>(o),
        run_flags(o, seq!["--system-dns"@] + rest) == run_flags(
            (RunRead { system_dns: true, ..o }),
            rest,
        ),
        f != "--system-dns"@ ==> {
            &&& run_flags(o, seq![f, v] + rest) == match run_flag(o, f, v) {
                Ok(p) => run_flags(p, rest),
                Err(e) => Err::<RunRead, Text>(e),
            }
            &&& run_flags(o, seq![f]) == Err::<RunRead, Text>(
                f + " needs a value\n"@ + USAGE@,
            )
        },
{
    assert((seq!["--system-dns"@] + rest).skip(1) =~= rest);
    assert((seq![f, v] + rest).skip(2) =~= rest);
}

/// `run` needs the settings and the state; what is not said is the resolver
/// on port 53 of this Mac, the DNS 1.1.1.1, the installed programs, a day
/// for a route, fake addresses where there are some, and the DNS of the Mac
/// left alone.
pub proof fn lemma_what_run_needs(args: Seq<Text>)
    ensures
        ({
            let d = run_defaults();
            &&& d.config is None && d.state is None && d.journal is None
            &&& d.listen == (crate::addr::octets(127, 0, 0, 1).shown(), 53u16)
            &&& d.tunnel_dns == crate::addr::octets(1, 1, 1, 1)
            &&& d.libexec == "/usr/local/libexec/mac-gate"@
            &&& d.window == 86_400
            &&& d.use_fakeip
            &&& !d.system_dns
        }),
        run_flags(run_defaults(), args) matches Ok(o) ==> {
            &&& o.config is None ==> run_order(args) == Err::<Running, Text>(
                "--config"@ + " is required\n"@ + USAGE@,
            )
            &&& o.config is Some && o.state is None ==> run_order(args) == Err::<Running, Text>(
                "--state"@ + " is required\n"@ + USAGE@,
            )
            &&& o.config is Some && o.state is Some ==> run_order(args) == Ok::<Running, Text>(
                (Running {
                    settings: o.config->0,
                    state: o.state->0,
                    journal: o.journal,
                    listen: o.listen,
                    tunnel_dns: o.tunnel_dns,
                    libexec: o.libexec,
                    window: o.window,
                    use_fakeip: o.use_fakeip,
                    system_dns: o.system_dns,
                }),
            )
        },
        run_flags(run_defaults(), args) matches Err(e) ==> run_order(args) == Err::<
            Running,
            Text,
        >(e),
{
}

/// A window is given in minutes and kept in seconds, as many as fit.
pub proof fn lemma_a_window_in_minutes(n: nat)
    ensures
        minutes(n) == if n * 60 <= 18_446_744_073_709_551_615 {
            n * 60
        } else {
            18_446_744_073_709_551_615
        },
{
}

/// Every flag of `resolve` sets what it names, and nothing else.
pub proof fn lemma_what_resolve_takes(o: ResolveRead, v: Text)
    ensures
        resolve_flag(o, "--lists"@, v) == Ok::<ResolveRead, Text>(
            (ResolveRead { lists: Some(v), ..o }),
        ),
        resolve_flag(o, "--tunnel"@, v) == Ok::<ResolveRead, Text>(
            (ResolveRead { tunnel: Some(v), ..o }),
        ),
        resolve_flag(o, "--journal"@, v) == Ok::<ResolveRead, Text>(
            (ResolveRead { journal: Some(v), ..o }),
        ),
        resolve_flag(o, "--network-dns"@, v) == match crate::addr::address(v) {
            Some(a) => Ok::<ResolveRead, Text>((ResolveRead { network_dns: Some(a), ..o })),
            None => Err::<ResolveRead, Text>("--network-dns"@ + ": bad value "@ + v),
        },
        resolve_flag(o, "--tunnel-dns"@, v) == match crate::addr::address(v) {
            Some(a) => Ok::<ResolveRead, Text>((ResolveRead { tunnel_dns: a, ..o })),
            None => Err::<ResolveRead, Text>("--tunnel-dns"@ + ": bad value "@ + v),
        },
        resolve_flag(o, "--listen"@, v) == match crate::socket::socket(v) {
            Some(a) => Ok::<ResolveRead, Text>((ResolveRead { listen: a, ..o })),
            None => Err::<ResolveRead, Text>("--listen"@ + ": bad value "@ + v),
        },
{
    lemma_how_flags_are_spelled();
}

/// The flags of `resolve` are read in the same way.
pub proof fn lemma_how_resolve_is_read(o: ResolveRead, f: Text, v: Text, rest: Seq<Text>)
    ensures
        resolve_flags(o, seq![]) == Ok::<ResolveRead, Text>(o),
        resolve_flags(o, seq!["--use-fakeip"@] + rest) == resolve_flags(
            (ResolveRead { use_fakeip: true, ..o }),
            rest,
        ),
        f != "--use-fakeip"@ ==> {
            &&& resolve_flags(o, seq![f, v] + rest) == match resolve_flag(o, f, v) {
                Ok(p) => resolve_flags(p, rest),
                Err(e) => Err::<ResolveRead, Text>(e),
            }
            &&& resolve_flags(o, seq![f]) == Err::<ResolveRead, Text>(
                f + " needs a value\n"@ + USAGE@,
            )
        },
{
    assert((seq!["--use-fakeip"@] + rest).skip(1) =~= rest);
    assert((seq![f, v] + rest).skip(2) =~= rest);
}

/// `resolve` needs the lists, the tunnel and the DNS of the network; what is
/// not said is port 5300 of this Mac, the DNS 1.1.1.1, and no fake
/// addresses.
pub proof fn lemma_what_resolve_needs(args: Seq<Text>)
    ensures
        ({
            let d = resolve_defaults();
            &&& d.lists is None && d.tunnel is None && d.network_dns is None && d.journal is None
            &&& d.listen == (crate::addr::octets(127, 0, 0, 1).shown(), 5300u16)
            &&& d.tunnel_dns == crate::addr::octets(1, 1, 1, 1)
            &&& !d.use_fakeip
        }),
        resolve_flags(resolve_defaults(), args) matches Ok(o) ==> {
            &&& o.lists is None ==> resolve_order(args) == Err::<Resolving, Text>(
                "--lists"@ + " is required\n"@ + USAGE@,
            )
            &&& o.lists is Some && o.tunnel is None ==> resolve_order(args) == Err::<
                Resolving,
                Text,
            >("--tunnel"@ + " is required\n"@ + USAGE@)
            &&& o.lists is Some && o.tunnel is Some && o.network_dns is None ==> resolve_order(args)
                == Err::<Resolving, Text>("--network-dns"@ + " is required\n"@ + USAGE@)
            &&& o.lists is Some && o.tunnel is Some && o.network_dns is Some ==> resolve_order(args)
                == Ok::<Resolving, Text>(
                (Resolving {
                    lists: o.lists->0,
                    tunnel: o.tunnel->0,
                    network_dns: o.network_dns->0,
                    tunnel_dns: o.tunnel_dns,
                    listen: o.listen,
                    use_fakeip: o.use_fakeip,
                    journal: o.journal,
                }),
            )
        },
        resolve_flags(resolve_defaults(), args) matches Err(e) ==> resolve_order(args) == Err::<
            Resolving,
            Text,
        >(e),
{
}

/// `install` takes the settings and the two programs, and needs them all;
/// a tunnel file is not among them, and told so.
pub proof fn lemma_what_install_takes(o: InstallRead, f: Text, v: Text, rest: Seq<Text>)
    ensures
        install_flag(o, "--config"@, v) == Ok::<InstallRead, Text>(
            (InstallRead { config: Some(v), ..o }),
        ),
        install_flag(o, "--awg-go"@, v) == Ok::<InstallRead, Text>(
            (InstallRead { awg_go: Some(v), ..o }),
        ),
        install_flag(o, "--awg"@, v) == Ok::<InstallRead, Text>(
            (InstallRead { awg: Some(v), ..o }),
        ),
        install_flags(o, seq![]) == Ok::<InstallRead, Text>(o),
        install_flags(o, seq!["--conf"@] + rest) == Err::<InstallRead, Text>(
            "--conf: the tunnels are in the settings now, [[tunnel]] with conf = FILE"@,
        ),
        f != "--conf"@ ==> install_flags(o, seq![f, v] + rest) == match install_flag(o, f, v) {
            Ok(p) => install_flags(p, rest),
            Err(e) => Err::<InstallRead, Text>(e),
        },
        install_flags(install_defaults(), rest) matches Ok(p) ==> {
            &&& p.config is None ==> install_order(rest) == Err::<(Text, Text, Text), Text>(
                "--config"@ + " is required\n"@ + USAGE@,
            )
            &&& p.config is Some && p.awg_go is None ==> install_order(rest) == Err::<
                (Text, Text, Text),
                Text,
            >("--awg-go"@ + " is required\n"@ + USAGE@)
            &&& p.config is Some && p.awg_go is Some && p.awg is None ==> install_order(rest)
                == Err::<(Text, Text, Text), Text>("--awg"@ + " is required\n"@ + USAGE@)
            &&& p.config is Some && p.awg_go is Some && p.awg is Some ==> install_order(rest)
                == Ok::<(Text, Text, Text), Text>((p.config->0, p.awg_go->0, p.awg->0))
        },
{
    lemma_how_flags_are_spelled();
    assert((seq![f, v] + rest).skip(2) =~= rest);
    assert((seq!["--conf"@] + rest)[0] == "--conf"@);
}

/// The short commands speak of the state of the installed service unless
/// another is named, and take nothing else.
pub proof fn lemma_which_state_is_meant(state: Text, more: Seq<Text>)
    ensures
        state_order(seq![]) == Ok::<Text, Text>("/var/db/mac-gate/routes"@),
        state_order(seq!["--state"@, state]) == Ok::<Text, Text>(state),
        more.len() > 0 && !(more.len() == 2 && more[0] == "--state"@) ==> state_order(more)
            == Err::<Text, Text>(USAGE@),
{
}

/// The owner's words: the kill switch goes on or off, the country is a code
/// in letters of either kind, or left to the services.
pub proof fn lemma_the_owners_words(rest: Seq<Text>, word: Text)
    ensures
        state_order(rest) matches Ok(state) ==> {
            &&& killswitch_order(seq!["on"@] + rest) == Ok::<Order, Text>(
                (Order::Killswitch { on: true, state }),
            )
            &&& killswitch_order(seq!["off"@] + rest) == Ok::<Order, Text>(
                (Order::Killswitch { on: false, state }),
            )
            &&& country_order(seq!["auto"@] + rest) == Ok::<Order, Text>(
                (Order::Country { code: None, state }),
            )
            &&& word != "auto"@ && crate::daemon::code_in(crate::text::upper(word)) is Some
                ==> country_order(seq![word] + rest) == Ok::<Order, Text>(
                (Order::Country { code: Some(crate::text::upper(word)), state }),
            )
        },
        word != "on"@ && word != "off"@ ==> killswitch_order(seq![word] + rest) == Err::<
            Order,
            Text,
        >(USAGE@),
        word != "auto"@ && crate::daemon::code_in(crate::text::upper(word)) is None
            ==> country_order(seq![word] + rest) == Err::<Order, Text>(
            "country: "@ + word + " is not a code of two letters\n"@ + USAGE@,
        ),
{
    lemma_how_flags_are_spelled();
    assert((seq!["on"@] + rest).skip(1) =~= rest);
    assert((seq!["off"@] + rest).skip(1) =~= rest);
    assert((seq!["auto"@] + rest).skip(1) =~= rest);
    assert((seq![word] + rest).skip(1) =~= rest);
    assert((seq![word] + rest)[0] == word);
}

/// The first word says which command it is; without one, or with another,
/// the usage is told.
pub proof fn lemma_which_command_is_meant(rest: Seq<Text>, word: Text)
    ensures
        order(seq![]) == Err::<Order, Text>(USAGE@),
        order(seq!["run"@] + rest) == match run_order(rest) {
            Ok(c) => Ok::<Order, Text>(Order::Run(c)),
            Err(e) => Err::<Order, Text>(e),
        },
        order(seq!["resolve"@] + rest) == match resolve_order(rest) {
            Ok(a) => Ok::<Order, Text>(Order::Resolve(a)),
            Err(e) => Err::<Order, Text>(e),
        },
        order(seq!["killswitch"@] + rest) == killswitch_order(rest),
        order(seq!["country"@] + rest) == country_order(rest),
        order(seq!["update"@] + rest) == match state_order(rest) {
            Ok(state) => Ok::<Order, Text>((Order::Update { state })),
            Err(e) => Err::<Order, Text>(e),
        },
        order(seq!["uninstall"@]) == Ok::<Order, Text>(Order::Uninstall),
        order(seq!["on"@]) == Ok::<Order, Text>(Order::On),
        order(seq!["off"@]) == Ok::<Order, Text>(Order::Off),
        rest.len() > 0 ==> order(seq!["on"@] + rest) == Err::<Order, Text>(USAGE@) && order(
            seq!["off"@] + rest,
        ) == Err::<Order, Text>(USAGE@) && order(seq!["uninstall"@] + rest) == Err::<Order, Text>(
            USAGE@,
        ),
{
    reveal_strlit("resolve");
    reveal_strlit("run");
    reveal_strlit("killswitch");
    reveal_strlit("country");
    reveal_strlit("update");
    reveal_strlit("install");
    reveal_strlit("uninstall");
    reveal_strlit("on");
    reveal_strlit("off");
    assert("resolve"@.len() == 7 && "resolve"@[0] == 'r');
    assert("run"@.len() == 3 && "run"@[0] == 'r');
    assert("killswitch"@.len() == 10);
    assert("country"@.len() == 7 && "country"@[0] == 'c');
    assert("update"@.len() == 6);
    assert("install"@.len() == 7 && "install"@[0] == 'i');
    assert("uninstall"@.len() == 9);
    assert("on"@.len() == 2);
    assert("off"@.len() == 3 && "off"@[0] == 'o');
    assert((seq!["run"@] + rest).skip(1) =~= rest);
    assert((seq!["resolve"@] + rest).skip(1) =~= rest);
    assert((seq!["killswitch"@] + rest).skip(1) =~= rest);
    assert((seq!["country"@] + rest).skip(1) =~= rest);
    assert((seq!["update"@] + rest).skip(1) =~= rest);
    assert((seq!["uninstall"@] + rest).skip(1) =~= rest);
    assert((seq!["on"@] + rest).skip(1) =~= rest);
    assert((seq!["off"@] + rest).skip(1) =~= rest);
    assert(seq!["uninstall"@].skip(1) =~= seq![]);
    assert(seq!["on"@].skip(1) =~= seq![]);
    assert(seq!["off"@].skip(1) =~= seq![]);
}

} // verus!
