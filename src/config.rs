//! The application's settings and their defaults.
use vstd::prelude::*;
use crate::text::push_char;

verus! {

/// Relies on `sys_locale::get_locale`: the system's preferred locale, if it
/// tells one. Nothing is promised of it.
#[verifier::external_body]
fn system_locale() -> (r: Option<String>) {
    sys_locale::get_locale()
}

/// Where the daemon listens.
pub struct Network {
    pub port: Option<u32>,
    pub host: Option<String>,
}

impl Default for Network {
    /// Port 7700 on `localhost`.
    fn default() -> (r: Self)
        ensures
            r.port == Some(7700u32),
            r.host is Some && r.host->0@ == "localhost"@,
    {
        Network { port: Some(7700), host: Some("localhost".to_owned()) }
    }
}

/// Appearance and language.
pub struct Global {
    pub enable_blur: Option<bool>,
    pub lang: Option<String>,
    pub theme: Option<String>,
}

/// The language to use: the given locale, or `en-GB` when there is none.
pub fn lang_or_default(locale: Option<String>) -> (r: String)
    ensures
        match locale {
            Some(l) => r@ == l@,
            None => r@ == "en-GB"@,
        },
{
    match locale {
        Some(l) => l,
        None => "en-GB".to_owned(),
    }
}

impl Default for Global {
    /// No blur, the `auto` theme, and the system's locale (`en-GB` when it
    /// tells none, see `lang_or_default`).
    fn default() -> (r: Self)
        ensures
            r.enable_blur == Some(false),
            r.lang is Some,
            r.theme is Some && r.theme->0@ == "auto"@,
    {
        let lang = lang_or_default(system_locale());
        Global { enable_blur: Some(false), lang: Some(lang), theme: Some("auto".to_owned()) }
    }
}

/// The settings, by section.
pub struct Config {
    pub global: Option<Global>,
    pub network: Option<Network>,
}

impl Default for Config {
    /// Both sections, at their defaults.
    fn default() -> (r: Self)
        ensures
            r.global is Some && r.global->0.enable_blur == Some(false),
            r.network is Some && r.network->0.port == Some(7700u32),
    {
        Config { global: Some(Global::default()), network: Some(Network::default()) }
    }
}

/// The decimal digit of `d` (below 10).
pub open spec fn digit_char(d: nat) -> char {
    if d == 0 {
        '0'
    } else if d == 1 {
        '1'
    } else if d == 2 {
        '2'
    } else if d == 3 {
        '3'
    } else if d == 4 {
        '4'
    } else if d == 5 {
        '5'
    } else if d == 6 {
        '6'
    } else if d == 7 {
        '7'
    } else if d == 8 {
        '8'
    } else {
        '9'
    }
}

/// The decimal numeral of `n`, without leading zeros.
pub open spec fn decimal(n: nat) -> Seq<char>
    decreases n,
{
    if n < 10 {
        seq![digit_char(n)]
    } else {
        decimal(n / 10).push(digit_char(n % 10))
    }
}

fn digit(d: u32) -> (c: char)
    requires
        d < 10,
    ensures
        c == digit_char(d as nat),
{
    if d == 0 {
        '0'
    } else if d == 1 {
        '1'
    } else if d == 2 {
        '2'
    } else if d == 3 {
        '3'
    } else if d == 4 {
        '4'
    } else if d == 5 {
        '5'
    } else if d == 6 {
        '6'
    } else if d == 7 {
        '7'
    } else if d == 8 {
        '8'
    } else {
        '9'
    }
}

/// Appends the decimal numeral of `n` to `s`.
fn push_decimal(s: &mut String, n: u32)
    ensures
        final(s)@ == old(s)@ + decimal(n as nat),
    decreases n,
{
    if n >= 10 {
        push_decimal(s, n / 10);
    }
    push_char(s, digit(n % 10));
    proof {
        if n >= 10 {
            assert(old(s)@ + decimal((n / 10) as nat) + seq![digit_char((n % 10) as nat)] =~= old(s)@
                + decimal(n as nat));
        } else {
            assert(old(s)@.push(digit_char(n as nat)) =~= old(s)@ + decimal(n as nat));
        }
    }
}

/// The address of the daemon, `host:port`, from the network settings of
/// `config`; each part that is not set takes its default (`localhost`, 7700).
pub fn daemon_(config: &Config) -> (r: String)
    ensures
        ({
            let (host, port) = match config.network {
                Some(n) => (
                    match n.host {
                        Some(h) => h@,
                        None => "localhost"@,
                    },
                    match n.port {
                        Some(p) => p,
                        None => 7700u32,
                    },
                ),
                None => ("localhost"@, 7700u32),
            };
            r@ == host + seq![':'] + decimal(port as nat)
        }),
{
    let default_net = Network::default();
    let mut host: String = match default_net.host {
        Some(h) => h,
        None => "localhost".to_owned(),
    };
    let mut port: u32 = match default_net.port {
        Some(p) => p,
        None => 7700,
    };
    match &config.network {
        Some(net) => {
            match &net.host {
                Some(h) => {
                    host = h.clone();
                },
                None => {},
            }
            match net.port {
                Some(p) => {
                    port = p;
                },
                None => {},
            }
        },
        None => {},
    }
    let mut out = host;
    push_char(&mut out, ':');
    push_decimal(&mut out, port);
    out
}

} // verus!
