//! The settings of the program: how they are kept, changed and put to use.

use crate::addr::{self, SocketAddr};
use crate::cli::{self, SettingArgs};
use crate::text;
use vstd::prelude::*;

verus! {

/// The settings that are kept between runs. An empty text means that the item is not
/// set.
#[derive(Clone, Debug)]
pub struct Settings {
    pub backend: String,
    pub token: String,
    pub api_addr: String,
    pub listen_addr: String,
    pub tls_cert: String,
    pub tls_key: String,
    pub trusted_proxies: String,
}

/// The contents of the settings.
#[verifier::ext_equal]
pub ghost struct SettingsView {
    pub backend: Seq<char>,
    pub token: Seq<char>,
    pub api_addr: Seq<char>,
    pub listen_addr: Seq<char>,
    pub tls_cert: Seq<char>,
    pub tls_key: Seq<char>,
    pub trusted_proxies: Seq<char>,
}

impl View for Settings {
    type V = SettingsView;

    open spec fn view(&self) -> SettingsView {
        SettingsView {
            backend: self.backend@,
            token: self.token@,
            api_addr: self.api_addr@,
            listen_addr: self.listen_addr@,
            tls_cert: self.tls_cert@,
            tls_key: self.tls_key@,
            trusted_proxies: self.trusted_proxies@,
        }
    }
}

/// A character as it is kept in a line.
pub open spec fn escaped_char(c: char) -> Seq<char> {
    if c == '\\' {
        seq!['\\', '\\']
    } else if c == '\n' {
        seq!['\\', 'n']
    } else if c == '\r' {
        seq!['\\', 'r']
    } else {
        seq![c]
    }
}

/// A text as it is kept in a line.
pub open spec fn escaped(s: Seq<char>) -> Seq<char>
    decreases s.len(),
{
    if s.len() == 0 {
        Seq::empty()
    } else {
        escaped_char(s[0]) + escaped(s.drop_first())
    }
}

/// The text that a line stands for. A backslash before any other character, or at the
/// end, stands for itself.
pub open spec fn unescaped(s: Seq<char>) -> Seq<char>
    decreases s.len(),
{
    if s.len() == 0 {
        Seq::empty()
    } else if s[0] != '\\' {
        seq![s[0]] + unescaped(s.drop_first())
    } else if s.len() == 1 {
        seq!['\\']
    } else if s[1] == 'n' {
        seq!['\n'] + unescaped(s.skip(2))
    } else if s[1] == 'r' {
        seq!['\r'] + unescaped(s.skip(2))
    } else if s[1] == '\\' {
        seq!['\\'] + unescaped(s.skip(2))
    } else {
        seq!['\\', s[1]] + unescaped(s.skip(2))
    }
}

/// A line without the carriage return at its end.
pub open spec fn without_return(s: Seq<char>) -> Seq<char> {
    if s.len() > 0 && s.last() == '\r' {
        s.drop_last()
    } else {
        s
    }
}

/// The lines of a text. The last one need not be ended, and a carriage return before
/// the end of a line is no part of it.
pub open spec fn lines(s: Seq<char>) -> Seq<Seq<char>> {
    let pieces = text::split_at_char(s, '\n');
    let ended = pieces.drop_last().map_values(|p: Seq<char>| without_return(p));
    if pieces.last().len() == 0 {
        ended
    } else {
        ended.push(pieces.last())
    }
}

/// The text under which settings are kept: a line for each.
pub open spec fn settings_text(s: SettingsView) -> Seq<char> {
    escaped(s.backend).push('\n') + escaped(s.token).push('\n') + escaped(s.api_addr).push('\n')
        + escaped(s.listen_addr).push('\n') + escaped(s.tls_cert).push('\n') + escaped(
        s.tls_key,
    ).push('\n') + escaped(s.trusted_proxies).push('\n')
}

/// What a line stands for, if there are so many.
pub open spec fn line_at(l: Seq<Seq<char>>, i: int) -> Seq<char> {
    if i < l.len() {
        unescaped(l[i])
    } else {
        Seq::empty()
    }
}

/// The settings that a text stands for. The first four lines must be there; a line
/// that is not stands for a setting that is not set.
pub open spec fn settings_of(s: Seq<char>) -> Result<SettingsView, Seq<char>> {
    let l = lines(s);
    if l.len() == 0 {
        Err("settings: 缺少 backend 行"@)
    } else if l.len() == 1 {
        Err("settings: 缺少 token 行"@)
    } else if l.len() == 2 {
        Err("settings: 缺少 api_addr 行"@)
    } else if l.len() == 3 {
        Err("settings: 缺少 listen_addr 行"@)
    } else {
        Ok(
            SettingsView {
                backend: line_at(l, 0),
                token: line_at(l, 1),
                api_addr: line_at(l, 2),
                listen_addr: line_at(l, 3),
                tls_cert: line_at(l, 4),
                tls_key: line_at(l, 5),
                trusted_proxies: line_at(l, 6),
            },
        )
    }
}

/// A value, or what takes its place.
pub open spec fn or(value: Option<Seq<char>>, other: Seq<char>) -> Seq<char> {
    match value {
        Some(v) => v,
        None => other,
    }
}

/// The text of an address, or what takes its place.
pub open spec fn socket_or(value: Option<SocketAddr>, other: Seq<char>) -> Seq<char> {
    match value {
        Some(a) => addr::show_socket(a),
        None => other,
    }
}

/// The settings with those changes.
pub open spec fn merged(s: SettingsView, o: cli::SettingView) -> SettingsView {
    SettingsView {
        backend: or(o.server, s.backend),
        token: or(o.token, s.token),
        api_addr: socket_or(o.api_addr, s.api_addr),
        listen_addr: socket_or(o.listen_addr, s.listen_addr),
        tls_cert: or(o.tls_cert, s.tls_cert),
        tls_key: or(o.tls_key, s.tls_key),
        trusted_proxies: or(o.trusted_proxies, s.trusted_proxies),
    }
}

/// The names of those of the four items that are wanting.
pub open spec fn wanting(backend: bool, token: bool, api: bool, listen: bool) -> Seq<Seq<char>> {
    let none = Seq::<Seq<char>>::empty();
    let a = if backend {
        none.push("RUSTGATE_BACKEND (-s)"@)
    } else {
        none
    };
    let b = if token {
        a.push("RUSTGATE_API_TOKEN (-t)"@)
    } else {
        a
    };
    let c = if api {
        b.push("RUSTGATE_API (-a)"@)
    } else {
        b
    };
    if listen {
        c.push("RUSTGATE_LISTEN (-l)"@)
    } else {
        c
    }
}

/// The contents of a list of texts.
pub open spec fn str_views(v: Seq<&'static str>) -> Seq<Seq<char>> {
    v.map_values(|s: &'static str| s@)
}

fn list_wanting(backend: bool, token: bool, api: bool, listen: bool) -> (out: Vec<&'static str>)
    ensures
        str_views(out@) == wanting(backend, token, api, listen),
{
    let mut out: Vec<&'static str> = Vec::new();
    if backend {
        out.push("RUSTGATE_BACKEND (-s)");
    }
    if token {
        out.push("RUSTGATE_API_TOKEN (-t)");
    }
    if api {
        out.push("RUSTGATE_API (-a)");
    }
    if listen {
        out.push("RUSTGATE_LISTEN (-l)");
    }
    assert(str_views(out@) =~= wanting(backend, token, api, listen));
    out
}

fn text_or(value: &Option<String>, other: &String) -> (r: String)
    ensures
        r@ == or(cli::text_view(*value), other@),
{
    match value {
        Some(v) => v.clone(),
        None => other.clone(),
    }
}

fn address_or(value: &Option<SocketAddr>, other: &String) -> (r: String)
    ensures
        r@ == socket_or(*value, other@),
{
    match value {
        Some(a) => addr::socket_text(*a),
        None => other.clone(),
    }
}

/// The address of a backend starts with a scheme that the program can use.
pub open spec fn has_scheme(s: Seq<char>) -> bool {
    "http://"@.is_prefix_of(s) || "https://"@.is_prefix_of(s)
}

fn starts_with_scheme(s: &str) -> (r: bool)
    ensures
        r == has_scheme(s@),
{
    match text::strip_prefix(s, "http://") {
        Some(_) => true,
        None => match text::strip_prefix(s, "https://") {
            Some(_) => true,
            None => false,
        },
    }
}

/// What is shown of a setting that may not be set.
pub open spec fn shown(value: Seq<char>, unset: Seq<char>) -> Seq<char> {
    if value.len() == 0 {
        unset
    } else {
        value
    }
}

/// What is shown of the settings. The token is not.
pub open spec fn summary_of(s: SettingsView) -> Seq<Seq<char>> {
    seq![
        "  backend     = "@ + s.backend,
        "  token       = ********（已保存，不显示明文）"@,
        "  api_addr    = "@ + s.api_addr,
        "  listen_addr = "@ + s.listen_addr,
        "  tls_cert    = "@ + shown(s.tls_cert, "(未设置)"@),
        "  tls_key     = "@ + shown(s.tls_key, "(未设置)"@),
        "  trusted_proxies = "@ + shown(
            s.trusted_proxies,
            "(未设置，不解析 X-Forwarded-For)"@,
        ),
    ]
}

fn show_or<'a>(value: &'a str, unset: &'a str) -> (r: &'a str)
    ensures
        r@ == shown(value@, unset@),
{
    if value.is_empty() {
        unset
    } else {
        value
    }
}

impl Settings {
    /// No settings at all.
    pub fn defaults() -> (s: Self)
        ensures
            s@ == (SettingsView {
                backend: Seq::empty(),
                token: Seq::empty(),
                api_addr: Seq::empty(),
                listen_addr: Seq::empty(),
                tls_cert: Seq::empty(),
                tls_key: Seq::empty(),
                trusted_proxies: Seq::empty(),
            }),
    {
        let s = Settings {
            backend: String::new(),
            token: String::new(),
            api_addr: String::new(),
            listen_addr: String::new(),
            tls_cert: String::new(),
            tls_key: String::new(),
            trusted_proxies: String::new(),
        };
        assert(s@.backend =~= Seq::<char>::empty());
        s
    }

    /// The names of the items that must be set and are not.
    pub fn missing_required(&self) -> (out: Vec<&'static str>)
        ensures
            str_views(out@) == wanting(
                self@.backend.len() == 0,
                self@.token.len() == 0,
                self@.api_addr.len() == 0,
                self@.listen_addr.len() == 0,
            ),
    {
        list_wanting(
            self.backend.as_str().is_empty(),
            self.token.as_str().is_empty(),
            self.api_addr.as_str().is_empty(),
            self.listen_addr.as_str().is_empty(),
        )
    }

    /// The settings with the given changes.
    pub fn merge(&self, overrides: &SettingArgs) -> (s: Self)
        ensures
            s@ == merged(self@, overrides@),
    {
        Settings {
            backend: text_or(&overrides.server, &self.backend),
            token: text_or(&overrides.token, &self.token),
            api_addr: address_or(&overrides.api_addr, &self.api_addr),
            listen_addr: address_or(&overrides.listen_addr, &self.listen_addr),
            tls_cert: text_or(&overrides.tls_cert, &self.tls_cert),
            tls_key: text_or(&overrides.tls_key, &self.tls_key),
            trusted_proxies: text_or(&overrides.trusted_proxies, &self.trusted_proxies),
        }
    }

    /// Whether the backend, if it is set, starts with a scheme that the program can
    /// use.
    pub fn backend_is_usable(&self) -> (r: bool)
        ensures
            r == (self@.backend.len() == 0 || has_scheme(self@.backend)),
    {
        self.backend.as_str().is_empty() || starts_with_scheme(self.backend.as_str())
    }

    /// What is shown of the settings, line by line.
    pub fn summary(&self) -> (out: Vec<String>)
        ensures
            text::views(out@) == summary_of(self@),
    {
        let mut out: Vec<String> = Vec::new();
        out.push(text::joined("  backend     = ", self.backend.as_str()));
        out.push("  token       = ********（已保存，不显示明文）".to_owned());
        out.push(text::joined("  api_addr    = ", self.api_addr.as_str()));
        out.push(text::joined("  listen_addr = ", self.listen_addr.as_str()));
        out.push(
            text::joined("  tls_cert    = ", show_or(self.tls_cert.as_str(), "(未设置)")),
        );
        out.push(
            text::joined("  tls_key     = ", show_or(self.tls_key.as_str(), "(未设置)")),
        );
        out.push(
            text::joined(
                "  trusted_proxies = ",
                show_or(self.trusted_proxies.as_str(), "(未设置，不解析 X-Forwarded-For)"),
            ),
        );
        assert(text::views(out@) =~= summary_of(self@));
        out
    }

    /// A text as it is kept in a line.
    pub fn escape(s: &str) -> (out: String)
        ensures
            out@ == escaped(s@),
    {
        let cs = text::chars_of(s);
        let mut out = String::new();
        let mut i: usize = 0;
        assert(cs@.skip(0) =~= cs@);
        assert(out@ + escaped(cs@) =~= escaped(s@));
        while i < cs.len()
            invariant
                i <= cs@.len(),
                escaped(s@) == out@ + escaped(cs@.skip(i as int)),
            decreases cs@.len() - i,
        {
            let ghost before = out@;
            let ghost rest = cs@.skip(i as int);
            assert(rest.drop_first() =~= cs@.skip(i as int + 1));
            let c = cs[i];
            if c == '\\' {
                out.push('\\');
                out.push('\\');
            } else if c == '\n' {
                out.push('\\');
                out.push('n');
            } else if c == '\r' {
                out.push('\\');
                out.push('r');
            } else {
                out.push(c);
            }
            assert(out@ =~= before + escaped_char(c));
            assert(out@ + escaped(rest.drop_first()) =~= before + escaped(rest));
            i += 1;
        }
        assert(out@ =~= escaped(s@));
        out
    }

    /// The text that a line stands for.
    pub fn unescape(s: &str) -> (out: String)
        ensures
            out@ == unescaped(s@),
    {
        let cs = text::chars_of(s);
        let mut out = String::new();
        let mut i: usize = 0;
        assert(cs@.skip(0) =~= cs@);
        assert(out@ + unescaped(cs@) =~= unescaped(s@));
        while i < cs.len()
            invariant
                i <= cs@.len(),
                unescaped(s@) == out@ + unescaped(cs@.skip(i as int)),
            decreases cs@.len() - i,
        {
            let ghost before = out@;
            let ghost rest = cs@.skip(i as int);
            assert(rest.drop_first() =~= cs@.skip(i as int + 1));
            assert(rest[0] == cs@[i as int]);
            let c = cs[i];
            if c != '\\' {
                out.push(c);
                assert(out@ =~= before + seq![c]);
                assert(out@ + unescaped(rest.drop_first()) =~= before + unescaped(rest));
                i += 1;
            } else if i + 1 == cs.len() {
                out.push('\\');
                assert(out@ =~= before + unescaped(rest));
                assert(cs@.skip(i as int + 1) =~= Seq::<char>::empty());
                assert(out@ + unescaped(cs@.skip(i as int + 1)) =~= out@);
                i += 1;
            } else {
                let d = cs[i + 1];
                assert(rest[1] == d);
                assert(rest.skip(2) =~= cs@.skip(i as int + 2));
                if d == 'n' {
                    out.push('\n');
                } else if d == 'r' {
                    out.push('\r');
                } else if d == '\\' {
                    out.push('\\');
                } else {
                    out.push('\\');
                    out.push(d);
                }
                assert(out@ + unescaped(rest.skip(2)) =~= before + unescaped(rest));
                i += 2;
            }
        }
        assert(cs@.skip(i as int) =~= Seq::<char>::empty());
        assert(out@ =~= unescaped(s@));
        out
    }

    /// The text under which the settings are kept.
    pub fn to_text(&self) -> (out: String)
        ensures
            out@ == settings_text(self@),
    {
        let mut out = Settings::escape(self.backend.as_str());
        out.push('\n');
        text::push_chars(&mut out, Settings::escape(self.token.as_str()).as_str());
        out.push('\n');
        text::push_chars(&mut out, Settings::escape(self.api_addr.as_str()).as_str());
        out.push('\n');
        text::push_chars(&mut out, Settings::escape(self.listen_addr.as_str()).as_str());
        out.push('\n');
        text::push_chars(&mut out, Settings::escape(self.tls_cert.as_str()).as_str());
        out.push('\n');
        text::push_chars(&mut out, Settings::escape(self.tls_key.as_str()).as_str());
        out.push('\n');
        text::push_chars(&mut out, Settings::escape(self.trusted_proxies.as_str()).as_str());
        out.push('\n');
        assert(out@ =~= settings_text(self@));
        out
    }

    /// The settings that a text stands for. Where one of the first four lines is
    /// missing the error says which.
    pub fn from_text(content: &str) -> (r: Result<Settings, String>)
        ensures
            match settings_of(content@) {
                Ok(s) => r matches Ok(t) && t@ == s,
                Err(e) => crate::block::is_error(r, e),
            },
    {
        let l = read_lines(content);
        let ghost all = lines(content@);
        assert(text::views(l@).len() == l@.len());
        if l.len() == 0 {
            return Err("settings: 缺少 backend 行".to_owned());
        }
        if l.len() == 1 {
            return Err("settings: 缺少 token 行".to_owned());
        }
        if l.len() == 2 {
            return Err("settings: 缺少 api_addr 行".to_owned());
        }
        if l.len() == 3 {
            return Err("settings: 缺少 listen_addr 行".to_owned());
        }
        Ok(
            Settings {
                backend: read_line(&l, 0),
                token: read_line(&l, 1),
                api_addr: read_line(&l, 2),
                listen_addr: read_line(&l, 3),
                tls_cert: read_line(&l, 4),
                tls_key: read_line(&l, 5),
                trusted_proxies: read_line(&l, 6),
            },
        )
    }
}

fn read_line(l: &Vec<String>, i: usize) -> (s: String)
    ensures
        s@ == line_at(text::views(l@), i as int),
{
    if i < l.len() {
        assert(text::views(l@)[i as int] == l@[i as int]@);
        Settings::unescape(l[i].as_str())
    } else {
        let s = String::new();
        assert(s@ =~= Seq::<char>::empty());
        s
    }
}

fn strip_return(s: &str) -> (r: String)
    ensures
        r@ == without_return(s@),
{
    let cs = text::chars_of(s);
    if cs.len() > 0 && cs[cs.len() - 1] == '\r' {
        let r = text::string_from(&cs, 0, cs.len() - 1);
        assert(r@ =~= s@.drop_last());
        r
    } else {
        s.to_owned()
    }
}

/// The lines of a text.
pub fn read_lines(s: &str) -> (out: Vec<String>)
    ensures
        text::views(out@) == lines(s@),
{
    let p = text::split(s, '\n');
    let ghost pieces = text::split_at_char(s@, '\n');
    assert(text::views(p@) == pieces && pieces.len() == p@.len());
    let last = p.len() - 1;
    let mut out: Vec<String> = Vec::new();
    let mut i: usize = 0;
    while i < last
        invariant
            i <= last,
            last + 1 == p@.len(),
            pieces == text::views(p@),
            out@.len() == i,
            forall|k: int| 0 <= k < i ==> #[trigger] out@[k]@ == without_return(pieces[k]),
        decreases last - i,
    {
        assert(pieces[i as int] == p@[i as int]@);
        out.push(strip_return(p[i].as_str()));
        i += 1;
    }
    let ghost ended = pieces.drop_last().map_values(|q: Seq<char>| without_return(q));
    assert(text::views(out@) =~= ended);
    assert(pieces.last() == p@[last as int]@);
    if !p[last].as_str().is_empty() {
        let ghost before = out@;
        out.push(p[last].clone());
        assert(text::views(out@) =~= text::views(before).push(pieces.last()));
    }
    out
}

/// What the environment says of the settings. It goes before what is kept.
#[derive(Clone, Debug)]
pub struct Environment {
    pub backend: Option<String>,
    pub token: Option<String>,
    pub api: Option<String>,
    pub listen: Option<String>,
    pub trusted: Option<String>,
    pub tls_cert: Option<String>,
    pub tls_key: Option<String>,
}

/// Why the firewall cannot start.
#[derive(Clone, Debug)]
pub enum StartError {
    /// These items are not set.
    Missing(Vec<&'static str>),
    /// The environment gives no address to listen on.
    BadListenVariable(String),
    /// The settings give no address to listen on.
    BadListenSetting(String),
    /// Of certificate and key only one is set.
    HalfTls,
}

/// All that the firewall needs to start.
#[derive(Clone, Debug)]
pub struct Start {
    pub listen: SocketAddr,
    pub backend: String,
    pub token: String,
    pub trusted: String,
    pub tls: Option<(String, String)>,
}

/// The items that neither the environment nor the settings hold.
pub open spec fn missing_of(e: Environment, s: SettingsView) -> Seq<Seq<char>> {
    wanting(
        e.backend is None && s.backend.len() == 0,
        e.token is None && s.token.len() == 0,
        e.api is None && s.api_addr.len() == 0,
        e.listen is None && s.listen_addr.len() == 0,
    )
}

/// What the environment says, or else what is kept.
pub open spec fn chosen(value: Option<String>, kept: Seq<char>) -> Seq<char> {
    or(cli::text_view(value), kept)
}

/// The items that neither the environment nor the settings hold.
pub fn missing_at_start(env: &Environment, saved: &Settings) -> (out: Vec<&'static str>)
    ensures
        str_views(out@) == missing_of(*env, saved@),
{
    list_wanting(
        env.backend.is_none() && saved.backend.as_str().is_empty(),
        env.token.is_none() && saved.token.as_str().is_empty(),
        env.api.is_none() && saved.api_addr.as_str().is_empty(),
        env.listen.is_none() && saved.listen_addr.as_str().is_empty(),
    )
}

/// Whether and how the firewall starts.
pub open spec fn start_of(e: Environment, s: SettingsView, r: Result<Start, StartError>) -> bool {
    let missing = missing_of(e, s);
    let listen = chosen(e.listen, s.listen_addr);
    let cert = chosen(e.tls_cert, s.tls_cert);
    let key = chosen(e.tls_key, s.tls_key);
    if missing.len() > 0 {
        r matches Err(StartError::Missing(m)) && str_views(m@) == missing
    } else if addr::socket_of(listen) is None {
        match e.listen {
            Some(_) => r matches Err(StartError::BadListenVariable(v)) && v@ == listen,
            None => r matches Err(StartError::BadListenSetting(v)) && v@ == listen,
        }
    } else if (cert.len() == 0) != (key.len() == 0) {
        r matches Err(StartError::HalfTls)
    } else {
        &&& r matches Ok(start)
        &&& Some(start.listen) == addr::socket_of(listen)
        &&& start.backend@ == chosen(e.backend, s.backend)
        &&& start.token@ == chosen(e.token, s.token)
        &&& start.trusted@ == chosen(e.trusted, s.trusted_proxies)
        &&& match start.tls {
            Some((c, k)) => cert.len() > 0 && c@ == cert && k@ == key,
            None => cert.len() == 0,
        }
    }
}

/// Works out how the firewall starts: the environment goes before the settings.
pub fn resolve(env: &Environment, saved: &Settings) -> (r: Result<Start, StartError>)
    ensures
        start_of(*env, saved@, r),
{
    let missing = missing_at_start(env, saved);
    assert(str_views(missing@).len() == missing@.len());
    if missing.len() > 0 {
        return Err(StartError::Missing(missing));
    }
    let listen_text = text_or(&env.listen, &saved.listen_addr);
    let listen = match addr::parse_socket(listen_text.as_str()) {
        Some(a) => a,
        None => {
            return if env.listen.is_some() {
                Err(StartError::BadListenVariable(listen_text))
            } else {
                Err(StartError::BadListenSetting(listen_text))
            };
        },
    };
    let cert = text_or(&env.tls_cert, &saved.tls_cert);
    let key = text_or(&env.tls_key, &saved.tls_key);
    let no_cert = cert.as_str().is_empty();
    let no_key = key.as_str().is_empty();
    if no_cert != no_key {
        return Err(StartError::HalfTls);
    }
    let tls: Option<(String, String)> = if no_cert {
        None
    } else {
        Some((cert, key))
    };
    Ok(
        Start {
            listen,
            backend: text_or(&env.backend, &saved.backend),
            token: text_or(&env.token, &saved.token),
            trusted: text_or(&env.trusted, &saved.trusted_proxies),
            tls,
        },
    )
}

/// The address of the API: the environment goes before the settings. The text is
/// handed back where it is no address.
pub fn api_address(env: &Environment, saved: &Settings) -> (r: Result<SocketAddr, String>)
    ensures
        match addr::socket_of(chosen(env.api, saved@.api_addr)) {
            Some(a) => r == Ok::<SocketAddr, String>(a),
            None => r matches Err(s) && s@ == chosen(env.api, saved@.api_addr),
        },
{
    let value = text_or(&env.api, &saved.api_addr);
    match addr::parse_socket(value.as_str()) {
        Some(a) => Ok(a),
        None => Err(value),
    }
}

/// A text is read back from its line.
pub proof fn law_line_round_trip(s: Seq<char>)
    ensures
        unescaped(escaped(s)) == s,
    decreases s.len(),
{
    if s.len() > 0 {
        let rest = escaped(s.drop_first());
        let e = escaped(s);
        law_line_round_trip(s.drop_first());
        if s[0] == '\\' || s[0] == '\n' || s[0] == '\r' {
            assert(e[0] == '\\' && e.skip(2) =~= rest);
        } else {
            assert(e[0] == s[0] && e.drop_first() =~= rest);
        }
        assert(seq![s[0]] + s.drop_first() =~= s);
    } else {
        assert(s =~= Seq::<char>::empty());
    }
}

/// A line holds neither a line feed nor a carriage return.
pub proof fn law_line_is_one_line(s: Seq<char>)
    ensures
        !escaped(s).contains('\n'),
        !escaped(s).contains('\r'),
    decreases s.len(),
{
    if s.len() > 0 {
        let rest = escaped(s.drop_first());
        let e = escaped(s);
        law_line_is_one_line(s.drop_first());
        let front = escaped_char(s[0]);
        assert forall|i: int| 0 <= i < e.len() implies e[i] != '\n' && e[i] != '\r' by {
            if i < front.len() {
                assert(e[i] == front[i]);
            } else {
                assert(e[i] == rest[i - front.len()]);
                assert(rest.contains(rest[i - front.len()]));
            }
        }
    }
}

proof fn lemma_line_ends_well(s: Seq<char>)
    ensures
        without_return(escaped(s)) == escaped(s),
{
    law_line_is_one_line(s);
    let e = escaped(s);
    if e.len() > 0 {
        assert(e.contains(e.last()));
    }
}

/// Settings are read back from the text under which they are kept.
pub proof fn law_settings_round_trip(s: SettingsView)
    ensures
        settings_of(settings_text(s)) == Ok::<SettingsView, Seq<char>>(s),
{
    let v = seq![
        s.backend,
        s.token,
        s.api_addr,
        s.listen_addr,
        s.tls_cert,
        s.tls_key,
        s.trusted_proxies,
    ];
    lemma_lines_of_seven(v, settings_text(s));
    law_line_round_trip(s.backend);
    law_line_round_trip(s.token);
    law_line_round_trip(s.api_addr);
    law_line_round_trip(s.listen_addr);
    law_line_round_trip(s.tls_cert);
    law_line_round_trip(s.tls_key);
    law_line_round_trip(s.trusted_proxies);
}

/// The text of some lines.
spec fn lines_text(v: Seq<Seq<char>>) -> Seq<char>
    decreases v.len(),
{
    if v.len() == 0 {
        Seq::empty()
    } else {
        lines_text(v.drop_last()) + escaped(v.last()).push('\n')
    }
}

/// The pieces of the text of some lines: the lines, and nothing behind the last.
proof fn lemma_pieces_of_lines(v: Seq<Seq<char>>)
    ensures
        text::split_at_char(lines_text(v), '\n') == v.map_values(
            |s: Seq<char>| escaped(s),
        ).push(Seq::<char>::empty()),
    decreases v.len(),
{
    let none = Seq::<char>::empty();
    if v.len() == 0 {
        assert(text::split_at_char(lines_text(v), '\n') =~= seq![none]);
        assert(v.map_values(|s: Seq<char>| escaped(s)).push(none) =~= seq![none]);
    } else {
        let front = v.drop_last();
        lemma_pieces_of_lines(front);
        law_line_is_one_line(v.last());
        let e = escaped(v.last());
        let before = lines_text(front);
        text::lemma_split_extend(before, e, '\n');
        let pieces = text::split_at_char(before, '\n');
        assert(pieces.last() + e =~= e);
        let middle = before + e;
        assert(!none.contains('\n'));
        text::lemma_split_more(middle, none, '\n');
        assert(middle.push('\n') + none =~= lines_text(v));
        assert(pieces.drop_last() =~= front.map_values(|s: Seq<char>| escaped(s)));
        assert(v.map_values(|s: Seq<char>| escaped(s)) =~= front.map_values(
            |s: Seq<char>| escaped(s),
        ).push(e));
    }
}

proof fn lemma_lines_of_seven(v: Seq<Seq<char>>, t: Seq<char>)
    requires
        v.len() == 7,
        t == escaped(v[0]).push('\n') + escaped(v[1]).push('\n') + escaped(v[2]).push('\n')
            + escaped(v[3]).push('\n') + escaped(v[4]).push('\n') + escaped(v[5]).push('\n')
            + escaped(v[6]).push('\n'),
    ensures
        lines(t) == v.map_values(|s: Seq<char>| escaped(s)),
{
    reveal_with_fuel(lines_text, 8);
    assert(v.drop_last().last() == v[5]);
    assert(v.drop_last().drop_last().last() == v[4]);
    assert(v.drop_last().drop_last().drop_last().last() == v[3]);
    assert(v.drop_last().drop_last().drop_last().drop_last().last() == v[2]);
    assert(v.drop_last().drop_last().drop_last().drop_last().drop_last().last() == v[1]);
    assert(v.drop_last().drop_last().drop_last().drop_last().drop_last().drop_last().last()
        == v[0]);
    assert(lines_text(v) =~= t);
    lemma_pieces_of_lines(v);
    let pieces = text::split_at_char(t, '\n');
    let e = v.map_values(|s: Seq<char>| escaped(s));
    assert(pieces.drop_last() =~= e);
    assert forall|i: int| 0 <= i < e.len() implies without_return(#[trigger] e[i]) == e[i] by {
        lemma_line_ends_well(v[i]);
    }
    assert(pieces.drop_last().map_values(|p: Seq<char>| without_return(p)) =~= e);
}

/// What is shown of the settings does not depend on the token.
pub proof fn law_token_is_not_shown(s: SettingsView, token: Seq<char>)
    ensures
        summary_of(s) == summary_of(SettingsView { token, ..s }),
{
}

/// A change of no value changes nothing, and a value that is given is taken.
pub proof fn law_merge_changes_what_is_given(s: SettingsView, o: cli::SettingView)
    ensures
        merged(s, cli::no_settings()) == s,
        o.server matches Some(v) ==> merged(s, o).backend == v,
        o.token matches Some(v) ==> merged(s, o).token == v,
        o.server is None ==> merged(s, o).backend == s.backend,
        o.token is None ==> merged(s, o).token == s.token,
        o.api_addr is None ==> merged(s, o).api_addr == s.api_addr,
        o.listen_addr is None ==> merged(s, o).listen_addr == s.listen_addr,
{
}

/// An address that was set is read back from what is kept.
pub proof fn law_kept_addresses_are_addresses(s: SettingsView, o: cli::SettingView)
    ensures
        o.api_addr matches Some(a) ==> addr::socket_of(merged(s, o).api_addr) == Some(a),
        o.listen_addr matches Some(a) ==> addr::socket_of(merged(s, o).listen_addr) == Some(a),
{
    if let Some(a) = o.api_addr {
        addr::law_socket_text_round_trip(a);
    }
    if let Some(a) = o.listen_addr {
        addr::law_socket_text_round_trip(a);
    }
}

/// Texts are escaped character by character: a backslash, a line feed and a carriage return
/// as a backslash and a letter, every other character as it is.
pub proof fn law_escapes(a: Seq<char>, b: Seq<char>)
    ensures
        escaped(a + b) == escaped(a) + escaped(b),
        escaped(Seq::empty()) == Seq::<char>::empty(),
        a.len() == 1 ==> escaped(a) == if a[0] == '\\' {
            seq!['\\', '\\']
        } else if a[0] == '\n' {
            seq!['\\', 'n']
        } else if a[0] == '\r' {
            seq!['\\', 'r']
        } else {
            a
        },
    decreases a.len(),
{
    if a.len() == 1 {
        assert(escaped(a.drop_first()) =~= Seq::<char>::empty());
        assert(a =~= seq![a[0]]);
        assert(escaped(a) =~= escaped_char(a[0]));
    }
    if a.len() == 0 {
        assert(a + b =~= b);
        assert(escaped(a) + escaped(b) =~= escaped(b));
    } else {
        assert((a + b).drop_first() =~= a.drop_first() + b);
        law_escapes(a.drop_first(), b);
        assert(escaped(a + b) =~= escaped(a) + escaped(b));
    }
}

/// A line is read from the left: a backslash before `n`, `r` or another one stands for the
/// character that it escapes, every other character for itself, and so does a backslash
/// before anything else or at the end.
pub proof fn law_unescapes(c: char, rest: Seq<char>)
    ensures
        c != '\\' ==> unescaped(seq![c] + rest) == seq![c] + unescaped(rest),
        unescaped(seq!['\\', 'n'] + rest) == seq!['\n'] + unescaped(rest),
        unescaped(seq!['\\', 'r'] + rest) == seq!['\r'] + unescaped(rest),
        unescaped(seq!['\\', '\\'] + rest) == seq!['\\'] + unescaped(rest),
        c != 'n' && c != 'r' && c != '\\' ==> unescaped(seq!['\\', c] + rest) == seq!['\\', c]
            + unescaped(rest),
        unescaped(seq!['\\']) == seq!['\\'],
        unescaped(Seq::empty()) == Seq::<char>::empty(),
{
    assert((seq![c] + rest).drop_first() =~= rest);
    assert((seq!['\\', 'n'] + rest).skip(2) =~= rest);
    assert((seq!['\\', 'r'] + rest).skip(2) =~= rest);
    assert((seq!['\\', '\\'] + rest).skip(2) =~= rest);
    assert((seq!['\\', c] + rest).skip(2) =~= rest);
}

/// The lines of a text are what stands between its line feeds, without a carriage return
/// at the end of a line that ends in a line feed; what stands behind the last line feed is
/// a line unless it is empty.
pub proof fn law_lines(p: Seq<Seq<char>>, last: Seq<char>)
    requires
        forall|i: int| 0 <= i < p.len() ==> !(#[trigger] p[i]).contains('\n'),
        !last.contains('\n'),
    ensures
        ({
            let all = lines(text::rejoined(p.push(last), '\n'));
            &&& all.len() == p.len() + (if last.len() > 0 {
                1nat
            } else {
                0
            })
            &&& forall|i: int|
                0 <= i < p.len() ==> #[trigger] all[i] == if p[i].len() > 0 && p[i].last() == '\r' {
                    p[i].drop_last()
                } else {
                    p[i]
                }
            &&& last.len() > 0 ==> all.last() == last
        }),
{
    let q = p.push(last);
    assert forall|i: int| 0 <= i < q.len() implies !(#[trigger] q[i]).contains('\n') by {
        if i < p.len() {
            assert(!p[i].contains('\n'));
        }
    }
    lemma_split_of_joined(q);
    let pieces = text::split_at_char(text::rejoined(q, '\n'), '\n');
    assert(pieces.drop_last() =~= p);
    assert(pieces.last() == last);
}

proof fn lemma_split_of_joined(p: Seq<Seq<char>>)
    requires
        p.len() > 0,
        forall|i: int| 0 <= i < p.len() ==> !(#[trigger] p[i]).contains('\n'),
    ensures
        text::split_at_char(text::rejoined(p, '\n'), '\n') == p,
    decreases p.len(),
{
    assert(!p[p.len() - 1].contains('\n'));
    if p.len() == 1 {
        text::lemma_split_one(p[0], '\n');
        assert(p =~= seq![p[0]]);
    } else {
        let front = p.drop_last();
        assert forall|i: int| 0 <= i < front.len() implies !(#[trigger] front[i]).contains(
            '\n',
        ) by {
            assert(front[i] == p[i]);
        }
        lemma_split_of_joined(front);
        text::lemma_split_more(text::rejoined(front, '\n'), p.last(), '\n');
        assert(front.push(p.last()) =~= p);
    }
}

/// Settings are kept as seven lines in a fixed order: backend, token, address of the API,
/// address to listen on, certificate, key and trusted proxies.
pub proof fn law_settings_are_seven_lines(s: SettingsView)
    ensures
        lines(settings_text(s)).len() == 7,
        lines(settings_text(s))[0] == escaped(s.backend),
        lines(settings_text(s))[1] == escaped(s.token),
        lines(settings_text(s))[2] == escaped(s.api_addr),
        lines(settings_text(s))[3] == escaped(s.listen_addr),
        lines(settings_text(s))[4] == escaped(s.tls_cert),
        lines(settings_text(s))[5] == escaped(s.tls_key),
        lines(settings_text(s))[6] == escaped(s.trusted_proxies),
{
    let v = seq![
        s.backend,
        s.token,
        s.api_addr,
        s.listen_addr,
        s.tls_cert,
        s.tls_key,
        s.trusted_proxies,
    ];
    lemma_lines_of_seven(v, settings_text(s));
}

/// Settings are read from lines in that order. The first four must be there, and the first
/// that is not is named; the others count as empty where they are not.
pub proof fn law_settings_are_read_in_order(s: Seq<char>)
    ensures
        ({
            let l = lines(s);
            let r = settings_of(s);
            &&& l.len() == 0 ==> r is Err && r->Err_0 == "settings: 缺少 backend 行"@
            &&& l.len() == 1 ==> r is Err && r->Err_0 == "settings: 缺少 token 行"@
            &&& l.len() == 2 ==> r is Err && r->Err_0 == "settings: 缺少 api_addr 行"@
            &&& l.len() == 3 ==> r is Err && r->Err_0 == "settings: 缺少 listen_addr 行"@
            &&& l.len() >= 4 ==> {
                &&& r is Ok
                &&& r->Ok_0.backend == unescaped(l[0])
                &&& r->Ok_0.token == unescaped(l[1])
                &&& r->Ok_0.api_addr == unescaped(l[2])
                &&& r->Ok_0.listen_addr == unescaped(l[3])
            }
            &&& l.len() >= 5 ==> r->Ok_0.tls_cert == unescaped(l[4])
            &&& l.len() == 4 ==> r->Ok_0.tls_cert.len() == 0
            &&& l.len() >= 6 ==> r->Ok_0.tls_key == unescaped(l[5])
            &&& 4 <= l.len() <= 5 ==> r->Ok_0.tls_key.len() == 0
            &&& l.len() >= 7 ==> r->Ok_0.trusted_proxies == unescaped(l[6])
            &&& 4 <= l.len() <= 6 ==> r->Ok_0.trusted_proxies.len() == 0
        }),
{
}

/// Every setting that a change gives is taken, addresses by their text, and every other is
/// kept.
pub proof fn law_changes_are_taken(s: SettingsView, o: cli::SettingView)
    ensures
        merged(s, o).backend == if o.server is Some {
            o.server.unwrap()
        } else {
            s.backend
        },
        merged(s, o).token == if o.token is Some {
            o.token.unwrap()
        } else {
            s.token
        },
        merged(s, o).api_addr == if o.api_addr is Some {
            addr::show_socket(o.api_addr.unwrap())
        } else {
            s.api_addr
        },
        merged(s, o).listen_addr == if o.listen_addr is Some {
            addr::show_socket(o.listen_addr.unwrap())
        } else {
            s.listen_addr
        },
        merged(s, o).tls_cert == if o.tls_cert is Some {
            o.tls_cert.unwrap()
        } else {
            s.tls_cert
        },
        merged(s, o).tls_key == if o.tls_key is Some {
            o.tls_key.unwrap()
        } else {
            s.tls_key
        },
        merged(s, o).trusted_proxies == if o.trusted_proxies is Some {
            o.trusted_proxies.unwrap()
        } else {
            s.trusted_proxies
        },
{
}

/// The settings that are wanting are told by name, in a fixed order, and no others.
pub proof fn law_wanting_settings(backend: bool, token: bool, api: bool, listen: bool)
    ensures
        wanting(backend, token, api, listen) == (if backend {
            seq!["RUSTGATE_BACKEND (-s)"@]
        } else {
            Seq::empty()
        }) + (if token {
            seq!["RUSTGATE_API_TOKEN (-t)"@]
        } else {
            Seq::empty()
        }) + (if api {
            seq!["RUSTGATE_API (-a)"@]
        } else {
            Seq::empty()
        }) + (if listen {
            seq!["RUSTGATE_LISTEN (-l)"@]
        } else {
            Seq::empty()
        }),
{
    assert(wanting(backend, token, api, listen) =~= (if backend {
        seq!["RUSTGATE_BACKEND (-s)"@]
    } else {
        Seq::empty()
    }) + (if token {
        seq!["RUSTGATE_API_TOKEN (-t)"@]
    } else {
        Seq::empty()
    }) + (if api {
        seq!["RUSTGATE_API (-a)"@]
    } else {
        Seq::empty()
    }) + (if listen {
        seq!["RUSTGATE_LISTEN (-l)"@]
    } else {
        Seq::empty()
    }));
}

/// A backend is named with `http://` or `https://` in front.
pub proof fn law_schemes(s: Seq<char>, rest: Seq<char>)
    ensures
        has_scheme(seq!['h', 't', 't', 'p', ':', '/', '/'] + rest),
        has_scheme(seq!['h', 't', 't', 'p', 's', ':', '/', '/'] + rest),
        has_scheme(s) ==> seq!['h', 't', 't', 'p', ':', '/', '/'].is_prefix_of(s) || seq![
            'h',
            't',
            't',
            'p',
            's',
            ':',
            '/',
            '/',
        ].is_prefix_of(s),
{
    reveal_strlit("http://");
    reveal_strlit("https://");
    let a = seq!['h', 't', 't', 'p', ':', '/', '/'];
    let b = seq!['h', 't', 't', 'p', 's', ':', '/', '/'];
    assert("http://"@ =~= a);
    assert("https://"@ =~= b);
    assert((a + rest).take(7) =~= a);
    assert((b + rest).take(8) =~= b);
    assert(a.is_prefix_of(a + rest));
    assert(b.is_prefix_of(b + rest));
}

/// A value of the environment, set to anything, goes before the one that is kept.
pub open spec fn first_of(value: Option<String>, kept: Seq<char>) -> Seq<char> {
    if value is Some {
        value.unwrap()@
    } else {
        kept
    }
}

/// The firewall starts where backend, token and both addresses are set, the address to
/// listen on is one, and certificate and key are both set or neither; it starts with the
/// values of the environment, and else with those that are kept.
pub proof fn law_start(e: Environment, s: SettingsView, r: Result<Start, StartError>)
    requires
        start_of(e, s, r),
    ensures
        ({
            let no_backend = e.backend is None && s.backend.len() == 0;
            let no_token = e.token is None && s.token.len() == 0;
            let no_api = e.api is None && s.api_addr.len() == 0;
            let no_listen = e.listen is None && s.listen_addr.len() == 0;
            let complete = !no_backend && !no_token && !no_api && !no_listen;
            let listen = addr::socket_of(first_of(e.listen, s.listen_addr));
            let cert = first_of(e.tls_cert, s.tls_cert);
            let key = first_of(e.tls_key, s.tls_key);
            &&& r is Ok <==> complete && listen is Some && (cert.len() == 0 <==> key.len() == 0)
            &&& !complete ==> r->Err_0 is Missing && str_views(r->Err_0->Missing_0@) == wanting(
                no_backend,
                no_token,
                no_api,
                no_listen,
            )
            &&& complete && listen is None ==> (e.listen is Some ==> r->Err_0 is BadListenVariable)
                && (e.listen is None ==> r->Err_0 is BadListenSetting)
            &&& complete && listen is Some && r is Err ==> r->Err_0 is HalfTls
            &&& r is Ok ==> {
                let start = r->Ok_0;
                &&& start.listen == listen.unwrap()
                &&& start.backend@ == first_of(e.backend, s.backend)
                &&& start.token@ == first_of(e.token, s.token)
                &&& start.trusted@ == first_of(e.trusted, s.trusted_proxies)
                &&& start.tls is Some <==> cert.len() > 0
                &&& start.tls matches Some(t) ==> t.0@ == cert && t.1@ == key
            }
        }),
{
    law_wanting_settings(
        e.backend is None && s.backend.len() == 0,
        e.token is None && s.token.len() == 0,
        e.api is None && s.api_addr.len() == 0,
        e.listen is None && s.listen_addr.len() == 0,
    );
}

/// What is shown of the settings are seven lines, one for each, in a fixed order; the token
/// is hidden, and what is not set is said to be so.
pub proof fn law_summary(s: SettingsView)
    ensures
        summary_of(s).len() == 7,
        summary_of(s)[0] == "  backend     = "@ + s.backend,
        summary_of(s)[1] == "  token       = ********（已保存，不显示明文）"@,
        summary_of(s)[2] == "  api_addr    = "@ + s.api_addr,
        summary_of(s)[3] == "  listen_addr = "@ + s.listen_addr,
        s.tls_cert.len() > 0 ==> summary_of(s)[4] == "  tls_cert    = "@ + s.tls_cert,
        s.tls_cert.len() == 0 ==> summary_of(s)[4] == "  tls_cert    = "@ + "(未设置)"@,
        s.tls_key.len() > 0 ==> summary_of(s)[5] == "  tls_key     = "@ + s.tls_key,
        s.tls_key.len() == 0 ==> summary_of(s)[5] == "  tls_key     = "@ + "(未设置)"@,
        s.trusted_proxies.len() > 0 ==> summary_of(s)[6] == "  trusted_proxies = "@
            + s.trusted_proxies,
        s.trusted_proxies.len() == 0 ==> summary_of(s)[6] == "  trusted_proxies = "@
            + "(未设置，不解析 X-Forwarded-For)"@,
{
}

} // verus!
