//! The command line.

use crate::addr::{self, SocketAddr};
use crate::text;
use vstd::prelude::*;

verus! {

/// The values given with `--setting`. What is not given stays as it was.
#[derive(Clone, Debug)]
pub struct SettingArgs {
    pub server: Option<String>,
    pub token: Option<String>,
    pub api_addr: Option<SocketAddr>,
    pub listen_addr: Option<SocketAddr>,
    pub tls_cert: Option<String>,
    pub tls_key: Option<String>,
    pub trusted_proxies: Option<String>,
}

/// The contents of the values.
#[verifier::ext_equal]
pub ghost struct SettingView {
    pub server: Option<Seq<char>>,
    pub token: Option<Seq<char>>,
    pub api_addr: Option<SocketAddr>,
    pub listen_addr: Option<SocketAddr>,
    pub tls_cert: Option<Seq<char>>,
    pub tls_key: Option<Seq<char>>,
    pub trusted_proxies: Option<Seq<char>>,
}

/// The contents of a text that may be missing.
pub open spec fn text_view(s: Option<String>) -> Option<Seq<char>> {
    match s {
        Some(s) => Some(s@),
        None => None,
    }
}

impl View for SettingArgs {
    type V = SettingView;

    open spec fn view(&self) -> SettingView {
        SettingView {
            server: text_view(self.server),
            token: text_view(self.token),
            api_addr: self.api_addr,
            listen_addr: self.listen_addr,
            tls_cert: text_view(self.tls_cert),
            tls_key: text_view(self.tls_key),
            trusted_proxies: text_view(self.trusted_proxies),
        }
    }
}

/// What the program is asked to do.
#[derive(Clone, Debug)]
pub enum Cli {
    /// Run the firewall.
    Waf,
    /// Save settings.
    Setting(SettingArgs),
    /// Show the help.
    Help,
}

/// What is wrong with a command line.
#[derive(Clone, Debug)]
pub enum CliError {
    /// `waf` takes no arguments; these were given.
    ExtraArguments(String),
    /// No command is known among these arguments.
    UnknownArguments(String),
    /// This option has no value behind it.
    MissingValue(String),
    /// This is no address for the API.
    BadApiAddress(String),
    /// This is no address to listen on.
    BadListenAddress(String),
    /// This option is not known.
    UnknownOption(String),
}

/// The contents of an error.
pub ghost enum CliErrorView {
    ExtraArguments(Seq<char>),
    UnknownArguments(Seq<char>),
    MissingValue(Seq<char>),
    BadApiAddress(Seq<char>),
    BadListenAddress(Seq<char>),
    UnknownOption(Seq<char>),
}

impl View for CliError {
    type V = CliErrorView;

    open spec fn view(&self) -> CliErrorView {
        match *self {
            CliError::ExtraArguments(s) => CliErrorView::ExtraArguments(s@),
            CliError::UnknownArguments(s) => CliErrorView::UnknownArguments(s@),
            CliError::MissingValue(s) => CliErrorView::MissingValue(s@),
            CliError::BadApiAddress(s) => CliErrorView::BadApiAddress(s@),
            CliError::BadListenAddress(s) => CliErrorView::BadListenAddress(s@),
            CliError::UnknownOption(s) => CliErrorView::UnknownOption(s@),
        }
    }
}

/// What a command line asks for.
pub ghost enum CliView {
    Waf,
    Setting(SettingView),
    Help,
}

impl View for Cli {
    type V = CliView;

    open spec fn view(&self) -> CliView {
        match *self {
            Cli::Waf => CliView::Waf,
            Cli::Setting(s) => CliView::Setting(s@),
            Cli::Help => CliView::Help,
        }
    }
}

/// The option is one of two names.
pub open spec fn is_either(a: Seq<char>, short: Seq<char>, long: Seq<char>) -> bool {
    a == short || a == long
}

/// The option takes a value.
pub open spec fn takes_value(a: Seq<char>) -> bool {
    ||| is_either(a, "-s"@, "--server"@)
    ||| is_either(a, "-t"@, "--token"@)
    ||| is_either(a, "-a"@, "--api"@)
    ||| is_either(a, "-l"@, "--listen"@)
    ||| is_either(a, "-c"@, "--tls-cert"@)
    ||| is_either(a, "-k"@, "--tls-key"@)
    ||| a == "--trusted-proxies"@
}

/// The values with one more option.
pub open spec fn with_option(s: SettingView, option: Seq<char>, value: Seq<char>) -> Result<
    SettingView,
    CliErrorView,
> {
    if is_either(option, "-s"@, "--server"@) {
        Ok(SettingView { server: Some(value), ..s })
    } else if is_either(option, "-t"@, "--token"@) {
        Ok(SettingView { token: Some(value), ..s })
    } else if is_either(option, "-a"@, "--api"@) {
        match addr::socket_of(value) {
            Some(a) => Ok(SettingView { api_addr: Some(a), ..s }),
            None => Err(CliErrorView::BadApiAddress(value)),
        }
    } else if is_either(option, "-l"@, "--listen"@) {
        match addr::socket_of(value) {
            Some(a) => Ok(SettingView { listen_addr: Some(a), ..s }),
            None => Err(CliErrorView::BadListenAddress(value)),
        }
    } else if is_either(option, "-c"@, "--tls-cert"@) {
        Ok(SettingView { tls_cert: Some(value), ..s })
    } else if is_either(option, "-k"@, "--tls-key"@) {
        Ok(SettingView { tls_key: Some(value), ..s })
    } else {
        Ok(SettingView { trusted_proxies: Some(value), ..s })
    }
}

/// The values given by the arguments from `i` on, on top of others. Of an option that
/// is given twice the later value counts.
pub open spec fn settings_from(args: Seq<Seq<char>>, i: int, s: SettingView) -> Result<
    SettingView,
    CliErrorView,
>
    decreases args.len() - i,
{
    if i >= args.len() {
        Ok(s)
    } else if !takes_value(args[i]) {
        Err(CliErrorView::UnknownOption(args[i]))
    } else if i + 1 >= args.len() {
        Err(CliErrorView::MissingValue(args[i]))
    } else {
        match with_option(s, args[i], args[i + 1]) {
            Ok(more) => settings_from(args, i + 2, more),
            Err(e) => Err(e),
        }
    }
}

/// No values at all.
pub open spec fn no_settings() -> SettingView {
    SettingView {
        server: None,
        token: None,
        api_addr: None,
        listen_addr: None,
        tls_cert: None,
        tls_key: None,
        trusted_proxies: None,
    }
}

/// The first position from `i` on of one of two arguments, or the end.
pub open spec fn position(args: Seq<Seq<char>>, a: Seq<char>, b: Seq<char>, i: int) -> int
    decreases args.len() - i,
{
    if i >= args.len() {
        args.len() as int
    } else if is_either(args[i], a, b) {
        i
    } else {
        position(args, a, b, i + 1)
    }
}

/// Some arguments with a blank between each two.
pub open spec fn joined(args: Seq<Seq<char>>) -> Seq<char>
    decreases args.len(),
{
    if args.len() == 0 {
        Seq::empty()
    } else if args.len() == 1 {
        args[0]
    } else {
        joined(args.drop_last()).push(' ') + args.last()
    }
}

/// What a command line asks for. A call for help counts wherever it stands; then
/// settings, then `waf`, which stands alone. An empty command line runs the firewall.
pub open spec fn command(args: Seq<Seq<char>>) -> Result<CliView, CliErrorView> {
    let setting = position(args, "--setting"@, "--settings"@, 0);
    let waf = position(args, "waf"@, "waf"@, 0);
    if position(args, "-h"@, "--help"@, 0) < args.len() {
        Ok(CliView::Help)
    } else if setting < args.len() {
        match settings_from(args, setting + 1, no_settings()) {
            Ok(s) => Ok(CliView::Setting(s)),
            Err(e) => Err(e),
        }
    } else if waf < args.len() {
        if waf + 1 < args.len() {
            Err(CliErrorView::ExtraArguments(joined(args.skip(waf + 1))))
        } else {
            Ok(CliView::Waf)
        }
    } else if args.len() == 0 {
        Ok(CliView::Waf)
    } else {
        Err(CliErrorView::UnknownArguments(joined(args)))
    }
}

fn either(a: &str, short: &str, long: &str) -> (r: bool)
    ensures
        r == is_either(a@, short@, long@),
{
    text::same_text(a, short) || text::same_text(a, long)
}

fn find(args: &Vec<String>, a: &str, b: &str) -> (i: usize)
    ensures
        i == position(text::views(args@), a@, b@, 0),
        i <= args@.len(),
{
    let ghost all = text::views(args@);
    let mut i: usize = 0;
    while i < args.len()
        invariant
            i <= args@.len(),
            all == text::views(args@),
            position(all, a@, b@, 0) == position(all, a@, b@, i as int),
        decreases args@.len() - i,
    {
        assert(all[i as int] == args@[i as int]@);
        if either(args[i].as_str(), a, b) {
            return i;
        }
        i += 1;
    }
    i
}

fn join(args: &Vec<String>, from: usize) -> (out: String)
    requires
        from <= args@.len(),
    ensures
        out@ == joined(text::views(args@).skip(from as int)),
{
    let ghost all = text::views(args@).skip(from as int);
    let mut out = String::new();
    let mut i: usize = from;
    assert(all.take(0) =~= Seq::<Seq<char>>::empty());
    assert(out@ =~= Seq::<char>::empty());
    while i < args.len()
        invariant
            from <= i <= args@.len(),
            all == text::views(args@).skip(from as int),
            out@ == joined(all.take(i - from)),
        decreases args@.len() - i,
    {
        let ghost next = all.take(i - from + 1);
        assert(next.drop_last() =~= all.take(i - from));
        assert(next.last() == args@[i as int]@);
        if i > from {
            out.push(' ');
        } else {
            assert(out@ + next.last() =~= next.last());
        }
        text::push_chars(&mut out, args[i].as_str());
        assert(out@ =~= joined(next));
        i += 1;
    }
    assert(all.take(all.len() as int) =~= all);
    out
}

/// The result is this error.
pub open spec fn fails_with<T>(r: Result<T, CliError>, e: CliErrorView) -> bool {
    r matches Err(f) && f@ == e
}

impl Cli {
    /// Reads the arguments of the program, its own name left out.
    pub fn parse(args: &Vec<String>) -> (r: Result<Cli, CliError>)
        ensures
            match command(text::views(args@)) {
                Ok(c) => r matches Ok(d) && d@ == c,
                Err(e) => fails_with(r, e),
            },
    {
        let ghost all = text::views(args@);
        if find(args, "-h", "--help") < args.len() {
            return Ok(Cli::Help);
        }
        let setting = find(args, "--setting", "--settings");
        if setting < args.len() {
            return match Cli::parse_setting(args, setting + 1) {
                Ok(s) => Ok(Cli::Setting(s)),
                Err(e) => Err(e),
            };
        }
        let waf = find(args, "waf", "waf");
        if waf < args.len() {
            if waf + 1 < args.len() {
                return Err(CliError::ExtraArguments(join(args, waf + 1)));
            }
            return Ok(Cli::Waf);
        }
        if args.len() == 0 {
            return Ok(Cli::Waf);
        }
        assert(all.skip(0) =~= all);
        Err(CliError::UnknownArguments(join(args, 0)))
    }

    /// Reads the arguments from `from` on, which stand behind `--setting`.
    pub fn parse_setting(args: &Vec<String>, from: usize) -> (r: Result<SettingArgs, CliError>)
        requires
            from <= args@.len(),
        ensures
            match settings_from(text::views(args@), from as int, no_settings()) {
                Ok(s) => r matches Ok(t) && t@ == s,
                Err(e) => fails_with(r, e),
            },
    {
        let ghost all = text::views(args@);
        let mut s = SettingArgs {
            server: None,
            token: None,
            api_addr: None,
            listen_addr: None,
            tls_cert: None,
            tls_key: None,
            trusted_proxies: None,
        };
        let mut i: usize = from;
        while i < args.len()
            invariant
                from <= i <= args@.len(),
                all == text::views(args@),
                settings_from(all, from as int, no_settings()) == settings_from(
                    all,
                    i as int,
                    s@,
                ),
            decreases args@.len() - i,
        {
            let ghost before = s@;
            assert(all[i as int] == args@[i as int]@);
            let a = args[i].as_str();
            let server = either(a, "-s", "--server");
            let token = either(a, "-t", "--token");
            let api = either(a, "-a", "--api");
            let listen = either(a, "-l", "--listen");
            let cert = either(a, "-c", "--tls-cert");
            let key = either(a, "-k", "--tls-key");
            let trusted = text::same_text(a, "--trusted-proxies");
            if !(server || token || api || listen || cert || key || trusted) {
                return Err(CliError::UnknownOption(args[i].clone()));
            }
            if args.len() - i < 2 {
                return Err(CliError::MissingValue(args[i].clone()));
            }
            assert(all[i + 1] == args@[i + 1]@);
            let value = args[i + 1].clone();
            if server {
                s.server = Some(value);
            } else if token {
                s.token = Some(value);
            } else if api {
                match addr::parse_socket(value.as_str()) {
                    Some(v) => {
                        s.api_addr = Some(v);
                    },
                    None => {
                        return Err(CliError::BadApiAddress(value));
                    },
                }
            } else if listen {
                match addr::parse_socket(value.as_str()) {
                    Some(v) => {
                        s.listen_addr = Some(v);
                    },
                    None => {
                        return Err(CliError::BadListenAddress(value));
                    },
                }
            } else if cert {
                s.tls_cert = Some(value);
            } else if key {
                s.tls_key = Some(value);
            } else {
                s.trusted_proxies = Some(value);
            }
            assert(with_option(before, all[i as int], all[i + 1]) == Ok::<
                SettingView,
                CliErrorView,
            >(s@));
            i += 2;
        }
        Ok(s)
    }
}

/// The message for an error, for a program of this name.
pub open spec fn error_message(e: CliErrorView, program: Seq<char>) -> Seq<char> {
    let help = "（查看帮助: "@ + program + " --help）"@;
    match e {
        CliErrorView::ExtraArguments(s) => "错误: `waf` 不接受额外参数 `"@ + s
            + "`（监听地址请用 `--setting -l <addr>` 配置，查看帮助: "@ + program + " --help）"@,
        CliErrorView::UnknownArguments(s) => "错误: 未知参数 `"@ + s + "`"@ + help,
        CliErrorView::MissingValue(s) => "错误: 参数 `"@ + s + "` 缺少值"@ + help,
        CliErrorView::BadApiAddress(s) => "错误: 无效 API 监听地址 `"@ + s
            + "`: invalid socket address syntax"@,
        CliErrorView::BadListenAddress(s) => "错误: 无效 WAF 监听地址 `"@ + s
            + "`: invalid socket address syntax"@,
        CliErrorView::UnknownOption(s) => "错误: 未知参数 `"@ + s + "`"@ + help,
    }
}

impl CliError {
    /// The message for a user who runs a program of this name.
    pub fn message(&self, program: &str) -> (m: String)
        ensures
            m@ == error_message(self@, program@),
    {
        let help = text::joined(text::joined("（查看帮助: ", program).as_str(), " --help）");
        match self {
            CliError::ExtraArguments(s) => {
                let mut m = text::joined("错误: `waf` 不接受额外参数 `", s.as_str());
                text::push_chars(
                    &mut m,
                    "`（监听地址请用 `--setting -l <addr>` 配置，查看帮助: ",
                );
                text::push_chars(&mut m, program);
                text::push_chars(&mut m, " --help）");
                m
            },
            CliError::UnknownArguments(s) => {
                let mut m = text::joined("错误: 未知参数 `", s.as_str());
                text::push_chars(&mut m, "`");
                text::push_chars(&mut m, help.as_str());
                m
            },
            CliError::MissingValue(s) => {
                let mut m = text::joined("错误: 参数 `", s.as_str());
                text::push_chars(&mut m, "` 缺少值");
                text::push_chars(&mut m, help.as_str());
                m
            },
            CliError::BadApiAddress(s) => {
                let mut m = text::joined("错误: 无效 API 监听地址 `", s.as_str());
                text::push_chars(&mut m, "`: invalid socket address syntax");
                m
            },
            CliError::BadListenAddress(s) => {
                let mut m = text::joined("错误: 无效 WAF 监听地址 `", s.as_str());
                text::push_chars(&mut m, "`: invalid socket address syntax");
                m
            },
            CliError::UnknownOption(s) => {
                let mut m = text::joined("错误: 未知参数 `", s.as_str());
                text::push_chars(&mut m, "`");
                text::push_chars(&mut m, help.as_str());
                m
            },
        }
    }
}

/// A call for help counts wherever it stands, whatever else is on the line.
pub proof fn law_help_counts_anywhere(args: Seq<Seq<char>>, i: int)
    requires
        0 <= i < args.len(),
        is_either(args[i], "-h"@, "--help"@),
    ensures
        command(args) == Ok::<CliView, CliErrorView>(CliView::Help),
{
    lemma_position_before(args, "-h"@, "--help"@, 0, i);
}

proof fn lemma_position_before(args: Seq<Seq<char>>, a: Seq<char>, b: Seq<char>, from: int, i: int)
    requires
        0 <= from <= i < args.len(),
        is_either(args[i], a, b),
    ensures
        position(args, a, b, from) <= i,
    decreases i - from,
{
    if from < i && !is_either(args[from], a, b) {
        lemma_position_before(args, a, b, from + 1, i);
    }
}

/// The first place of either text is told, or the end where neither is on the line.
pub proof fn law_first_place(args: Seq<Seq<char>>, a: Seq<char>, b: Seq<char>, from: int)
    requires
        0 <= from <= args.len(),
    ensures
        from <= position(args, a, b, from) <= args.len(),
        position(args, a, b, from) < args.len() ==> args[position(args, a, b, from)] == a
            || args[position(args, a, b, from)] == b,
        forall|i: int|
            from <= i < position(args, a, b, from) ==> #[trigger] args[i] != a && args[i] != b,
    decreases args.len() - from,
{
    if from < args.len() && !is_either(args[from], a, b) {
        law_first_place(args, a, b, from + 1);
    }
}

/// Neither text is on the line.
pub open spec fn lacks(args: Seq<Seq<char>>, a: Seq<char>, b: Seq<char>) -> bool {
    forall|i: int| 0 <= i < args.len() ==> #[trigger] args[i] != a && args[i] != b
}

/// Without a call for help, settings are read from behind the first `--setting`; without
/// that, `waf` starts the firewall if nothing stands behind the first one, and so does an
/// empty line. Every other line is refused with what is too much on it.
pub proof fn law_commands(args: Seq<Seq<char>>, i: int)
    requires
        lacks(args, "-h"@, "--help"@),
    ensures
        0 <= i < args.len() && is_either(args[i], "--setting"@, "--settings"@) && lacks(
            args.take(i),
            "--setting"@,
            "--settings"@,
        ) ==> command(args) == match settings_from(args, i + 1, no_settings()) {
            Ok(s) => Ok::<CliView, CliErrorView>(CliView::Setting(s)),
            Err(e) => Err(e),
        },
        lacks(args, "--setting"@, "--settings"@) && 0 <= i < args.len() && args[i] == "waf"@
            && lacks(args.take(i), "waf"@, "waf"@) ==> command(args) == if i + 1 == args.len() {
            Ok::<CliView, CliErrorView>(CliView::Waf)
        } else {
            Err(CliErrorView::ExtraArguments(text::rejoined(args.skip(i + 1), ' ')))
        },
        lacks(args, "--setting"@, "--settings"@) && lacks(args, "waf"@, "waf"@) ==> command(args)
            == if args.len() == 0 {
            Ok::<CliView, CliErrorView>(CliView::Waf)
        } else {
            Err(CliErrorView::UnknownArguments(text::rejoined(args, ' ')))
        },
{
    law_first_place(args, "-h"@, "--help"@, 0);
    law_first_place(args, "--setting"@, "--settings"@, 0);
    law_first_place(args, "waf"@, "waf"@, 0);
    lemma_joined(args);
    if 0 <= i < args.len() {
        lemma_joined(args.skip(i + 1));
        let (p, q) = (
            position(args, "--setting"@, "--settings"@, 0),
            position(args, "waf"@, "waf"@, 0),
        );
        if is_either(args[i], "--setting"@, "--settings"@) && lacks(
            args.take(i),
            "--setting"@,
            "--settings"@,
        ) {
            if p < i {
                assert(args.take(i)[p] == args[p]);
            }
            assert(p == i);
        }
        if args[i] == "waf"@ && lacks(args.take(i), "waf"@, "waf"@) {
            if q < i {
                assert(args.take(i)[q] == args[q]);
            }
            assert(q == i);
        }
    }
}

proof fn lemma_joined(args: Seq<Seq<char>>)
    ensures
        joined(args) == text::rejoined(args, ' '),
    decreases args.len(),
{
    if args.len() > 1 {
        lemma_joined(args.drop_last());
    }
}

/// Options come with their values, one after the other: an option that is not known or has
/// no value is refused, a value that is no address where one is due too, and the last value
/// of an option counts.
pub proof fn law_options_are_read_in_pairs(args: Seq<Seq<char>>, i: int, s: SettingView)
    requires
        0 <= i <= args.len(),
    ensures
        i == args.len() ==> settings_from(args, i, s) == Ok::<SettingView, CliErrorView>(s),
        i < args.len() && !takes_value(args[i]) ==> settings_from(args, i, s) == Err::<
            SettingView,
            CliErrorView,
        >(CliErrorView::UnknownOption(args[i])),
        i + 1 == args.len() && takes_value(args[i]) ==> settings_from(args, i, s) == Err::<
            SettingView,
            CliErrorView,
        >(CliErrorView::MissingValue(args[i])),
        i + 1 < args.len() && takes_value(args[i]) && with_option(s, args[i], args[i + 1]) is Err
            ==> settings_from(args, i, s) == with_option(s, args[i], args[i + 1]),
        i + 1 < args.len() && takes_value(args[i]) && with_option(s, args[i], args[i + 1]) is Ok
            ==> settings_from(args, i, s) == settings_from(
            args,
            i + 2,
            with_option(s, args[i], args[i + 1])->Ok_0,
        ),
{
}

/// Each option sets its own value and leaves the others as they are; those of addresses
/// take nothing but an address with a port.
pub proof fn law_options(s: SettingView, option: Seq<char>, value: Seq<char>)
    ensures
        takes_value(option) <==> seq![
            "-s"@,
            "--server"@,
            "-t"@,
            "--token"@,
            "-a"@,
            "--api"@,
            "-l"@,
            "--listen"@,
            "-c"@,
            "--tls-cert"@,
            "-k"@,
            "--tls-key"@,
            "--trusted-proxies"@,
        ].contains(option),
        option == "-s"@ || option == "--server"@ ==> with_option(s, option, value) == Ok::<
            SettingView,
            CliErrorView,
        >(SettingView { server: Some(value), ..s }),
        option == "-t"@ || option == "--token"@ ==> with_option(s, option, value) == Ok::<
            SettingView,
            CliErrorView,
        >(SettingView { token: Some(value), ..s }),
        option == "-c"@ || option == "--tls-cert"@ ==> with_option(s, option, value) == Ok::<
            SettingView,
            CliErrorView,
        >(SettingView { tls_cert: Some(value), ..s }),
        option == "-k"@ || option == "--tls-key"@ ==> with_option(s, option, value) == Ok::<
            SettingView,
            CliErrorView,
        >(SettingView { tls_key: Some(value), ..s }),
        option == "--trusted-proxies"@ ==> with_option(s, option, value) == Ok::<
            SettingView,
            CliErrorView,
        >(SettingView { trusted_proxies: Some(value), ..s }),
        option == "-a"@ || option == "--api"@ ==> with_option(s, option, value)
            == match addr::socket_of(value) {
            Some(a) => Ok::<SettingView, CliErrorView>(SettingView { api_addr: Some(a), ..s }),
            None => Err(CliErrorView::BadApiAddress(value)),
        },
        option == "-l"@ || option == "--listen"@ ==> with_option(s, option, value)
            == match addr::socket_of(value) {
            Some(a) => Ok::<SettingView, CliErrorView>(SettingView { listen_addr: Some(a), ..s }),
            None => Err(CliErrorView::BadListenAddress(value)),
        },
{
    reveal_strlit("-s");
    reveal_strlit("--server");
    reveal_strlit("-t");
    reveal_strlit("--token");
    reveal_strlit("-a");
    reveal_strlit("--api");
    reveal_strlit("-l");
    reveal_strlit("--listen");
    reveal_strlit("-c");
    reveal_strlit("--tls-cert");
    reveal_strlit("-k");
    reveal_strlit("--tls-key");
    reveal_strlit("--trusted-proxies");
    assert("-s"@[1] == 's' && "-t"@[1] == 't' && "-a"@[1] == 'a' && "-l"@[1] == 'l');
    assert("-c"@[1] == 'c' && "-k"@[1] == 'k');
    assert("--server"@.len() == 8 && "--server"@[2] == 's');
    assert("--token"@.len() == 7 && "--token"@[2] == 't');
    assert("--api"@.len() == 5);
    assert("--listen"@.len() == 8 && "--listen"@[2] == 'l');
    assert("--tls-cert"@.len() == 10);
    assert("--tls-key"@.len() == 9);
    assert("--trusted-proxies"@.len() == 17);
    let all = seq![
        "-s"@,
        "--server"@,
        "-t"@,
        "--token"@,
        "-a"@,
        "--api"@,
        "-l"@,
        "--listen"@,
        "-c"@,
        "--tls-cert"@,
        "-k"@,
        "--tls-key"@,
        "--trusted-proxies"@,
    ];
    if takes_value(option) {
        let i = if option == "-s"@ {
            0int
        } else if option == "--server"@ {
            1
        } else if option == "-t"@ {
            2
        } else if option == "--token"@ {
            3
        } else if option == "-a"@ {
            4
        } else if option == "--api"@ {
            5
        } else if option == "-l"@ {
            6
        } else if option == "--listen"@ {
            7
        } else if option == "-c"@ {
            8
        } else if option == "--tls-cert"@ {
            9
        } else if option == "-k"@ {
            10
        } else if option == "--tls-key"@ {
            11
        } else {
            12
        };
        assert(all[i] == option);
    }
    if all.contains(option) {
        let i = all.index_of(option);
        assert(all[i] == option);
    }
}

/// A message about an argument tells that argument, and what was wrong with it.
pub proof fn law_messages_tell_the_argument(s: Seq<char>, program: Seq<char>)
    ensures
        error_message(CliErrorView::UnknownArguments(s), program) == "错误: 未知参数 `"@ + s + "`"@
            + ("（查看帮助: "@ + program + " --help）"@),
        error_message(CliErrorView::UnknownOption(s), program) == "错误: 未知参数 `"@ + s + "`"@
            + ("（查看帮助: "@ + program + " --help）"@),
        error_message(CliErrorView::MissingValue(s), program) == "错误: 参数 `"@ + s
            + "` 缺少值"@ + ("（查看帮助: "@ + program + " --help）"@),
        error_message(CliErrorView::ExtraArguments(s), program)
            == "错误: `waf` 不接受额外参数 `"@ + s
            + "`（监听地址请用 `--setting -l <addr>` 配置，查看帮助: "@ + program + " --help）"@,
        error_message(CliErrorView::BadApiAddress(s), program) == "错误: 无效 API 监听地址 `"@ + s
            + "`: invalid socket address syntax"@,
        error_message(CliErrorView::BadListenAddress(s), program)
            == "错误: 无效 WAF 监听地址 `"@ + s + "`: invalid socket address syntax"@,
{
}

} // verus!
