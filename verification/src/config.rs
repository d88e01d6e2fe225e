//! The configuration: blocking rules, their schedules, the default
//! configuration and where the configuration file lives.

use vstd::prelude::*;
use vstd::string::StringSliceAdditionalSpecFns;

use crate::text::{join, join_strings, string_views};

verus! {

broadcast use vstd::string::group_string_axioms;

/// The whole configuration: a list of rules.
#[derive(Debug, Clone)]
pub struct Config {
    pub rules: Vec<Rule>,
}

/// A named list of domains, blocked whenever one of its schedules is active.
#[derive(Debug, Clone)]
pub struct Rule {
    pub name: String,
    pub domains: Vec<String>,
    pub schedules: Vec<Schedule>,
}

/// A weekly time window: the days it starts on and its start and end times
/// (`HH:MM`).
#[derive(Debug, Clone)]
pub struct Schedule {
    pub days: Vec<String>,
    pub start: String,
    pub end: String,
}

/// A schedule as plain text.
pub struct ScheduleView {
    pub days: Seq<Seq<char>>,
    pub start: Seq<char>,
    pub end: Seq<char>,
}

/// A rule as plain text.
pub struct RuleView {
    pub name: Seq<char>,
    pub domains: Seq<Seq<char>>,
    pub schedules: Seq<ScheduleView>,
}

/// A configuration as plain text.
pub struct ConfigView {
    pub rules: Seq<RuleView>,
}

impl View for Schedule {
    type V = ScheduleView;

    open spec fn view(&self) -> ScheduleView {
        ScheduleView { days: string_views(self.days@), start: self.start@, end: self.end@ }
    }
}

impl View for Rule {
    type V = RuleView;

    open spec fn view(&self) -> RuleView {
        RuleView {
            name: self.name@,
            domains: string_views(self.domains@),
            schedules: self.schedules@.map_values(|s: Schedule| s@),
        }
    }
}

impl View for Config {
    type V = ConfigView;

    open spec fn view(&self) -> ConfigView {
        ConfigView { rules: self.rules@.map_values(|r: Rule| r@) }
    }
}

/// The configuration written when there is none: social media blocked on
/// working days from 09:00 to 17:00.
pub open spec fn default_config() -> ConfigView {
    ConfigView {
        rules: seq![
            RuleView {
                name: "Social Media Block"@,
                domains: seq![
                    "facebook.com"@,
                    "www.facebook.com"@,
                    "twitter.com"@,
                    "www.twitter.com"@,
                    "x.com"@,
                    "www.x.com"@,
                    "instagram.com"@,
                    "www.instagram.com"@,
                    "reddit.com"@,
                    "www.reddit.com"@,
                ],
                schedules: seq![
                    ScheduleView {
                        days: seq!["Mon"@, "Tue"@, "Wed"@, "Thu"@, "Fri"@],
                        start: "09:00"@,
                        end: "17:00"@,
                    },
                ],
            },
        ],
    }
}

impl Config {
    /// The configuration written when there is none.
    pub fn default_template() -> (r: Config)
        ensures
            r@ == default_config(),
    {
        let mut domains: Vec<String> = Vec::new();
        domains.push(String::from_str("facebook.com"));
        domains.push(String::from_str("www.facebook.com"));
        domains.push(String::from_str("twitter.com"));
        domains.push(String::from_str("www.twitter.com"));
        domains.push(String::from_str("x.com"));
        domains.push(String::from_str("www.x.com"));
        domains.push(String::from_str("instagram.com"));
        domains.push(String::from_str("www.instagram.com"));
        domains.push(String::from_str("reddit.com"));
        domains.push(String::from_str("www.reddit.com"));
        let mut days: Vec<String> = Vec::new();
        days.push(String::from_str("Mon"));
        days.push(String::from_str("Tue"));
        days.push(String::from_str("Wed"));
        days.push(String::from_str("Thu"));
        days.push(String::from_str("Fri"));
        let schedule = Schedule {
            days,
            start: String::from_str("09:00"),
            end: String::from_str("17:00"),
        };
        let mut schedules: Vec<Schedule> = Vec::new();
        schedules.push(schedule);
        let rule = Rule { name: String::from_str("Social Media Block"), domains, schedules };
        let mut rules: Vec<Rule> = Vec::new();
        rules.push(rule);
        let r = Config { rules };
        assert(r@.rules[0].domains =~= default_config().rules[0].domains);
        assert(r@.rules[0].schedules[0].days =~= default_config().rules[0].schedules[0].days);
        assert(r@.rules[0].schedules =~= default_config().rules[0].schedules);
        assert(r@.rules =~= default_config().rules);
        r
    }
}

/// How a schedule's days are listed: `Everyday` where none are given, else
/// the days separated by `, `.
pub open spec fn days_text(days: Seq<Seq<char>>) -> Seq<char> {
    if days.len() == 0 {
        "Everyday"@
    } else {
        join(days, ", "@)
    }
}

impl Schedule {
    /// The schedule's days as listed to the user.
    pub fn days_label(&self) -> (r: String)
        ensures
            r@ == days_text(string_views(self.days@)),
    {
        if self.days.len() == 0 {
            String::from_str("Everyday")
        } else {
            join_strings(&self.days, ", ")
        }
    }
}

// ---------------------------------------------------------------------------
// Where the configuration file lives
// ---------------------------------------------------------------------------

/// `p` with the relative component `c` appended, as `PathBuf::push` does on
/// Unix, where a path is a sequence of bytes: a `/` (byte 47) goes between them unless
/// `p` is empty or already ends with one.
pub open spec fn path_push(p: Seq<u8>, c: Seq<u8>) -> Seq<u8> {
    if p.len() == 0 || p.last() == 47u8 {
        p + c
    } else {
        p.push(47u8) + c
    }
}

/// The configuration file under the home directory `home`:
/// `.config/hocus-focus/config.toml`.
pub open spec fn config_path_under(home: Seq<u8>) -> Seq<u8> {
    path_push(
        path_push(path_push(home, ".config".spec_bytes()), "hocus-focus".spec_bytes()),
        "config.toml".spec_bytes(),
    )
}

fn push_component(p: &mut Vec<u8>, c: &str)
    ensures
        final(p)@ == path_push(old(p)@, c.spec_bytes()),
{
    let n = p.len();
    if n > 0 && p[n - 1] != 47u8 {
        p.push(47u8);
    }
    let ghost start = p@;
    let bytes = c.as_bytes();
    let mut i: usize = 0;
    while i < bytes.len()
        invariant
            i <= bytes@.len(),
            bytes@ == c.spec_bytes(),
            p@ == start + bytes@.take(i as int),
        decreases bytes@.len() - i,
    {
        p.push(bytes[i]);
        assert(bytes@.take(i + 1) =~= bytes@.take(i as int).push(bytes@[i as int]));
        i = i + 1;
    }
    assert(bytes@.take(i as int) =~= bytes@);
    assert(final(p)@ =~= path_push(old(p)@, c.spec_bytes()));
}

/// The default configuration file under the home directory `home`, if there
/// is one.
pub fn default_config_path_from(home: Option<Vec<u8>>) -> (r: Option<Vec<u8>>)
    ensures
        home is None ==> r is None,
        home matches Some(h) ==> (r matches Some(p) && p@ == config_path_under(h@)),
{
    match home {
        None => None,
        Some(h) => {
            let mut p = h;
            push_component(&mut p, ".config");
            push_component(&mut p, "hocus-focus");
            push_component(&mut p, "config.toml");
            Some(p)
        },
    }
}

/// The current user's home directory (`dirs::home_dir`), as the bytes of the
/// path (`OsString::into_encoded_bytes`, on Unix the path's own bytes);
/// `None` where it cannot be found. It comes from the environment and the
/// user database, so nothing is stated of it.
#[verifier::external_body]
fn home_dir() -> (r: Option<Vec<u8>>) {
    match dirs::home_dir() {
        Some(p) => Some(p.into_os_string().into_encoded_bytes()),
        None => None,
    }
}

/// The default configuration file: `.config/hocus-focus/config.toml` under
/// the current user's home directory, or `None` where there is no home
/// directory.
pub fn get_default_config_path() -> (r: Option<Vec<u8>>)
    ensures
        r matches Some(p) ==> exists|h: Seq<u8>| p@ == config_path_under(h),
{
    default_config_path_from(home_dir())
}

/// Why no configuration file could be chosen.
#[derive(Debug, Clone, Copy, PartialEq, Eq, Structural)]
pub enum ConfigPathError {
    /// No path was given and the home directory is unknown.
    NoDefaultDirectory,
}

impl ConfigPathError {
    /// The message shown to the user.
    pub fn message(&self) -> (r: String)
        ensures
            r@ == "Could not resolve default config directory. Please specify a config file using --config <path>."@,
    {
        match self {
            ConfigPathError::NoDefaultDirectory => String::from_str(
                "Could not resolve default config directory. Please specify a config file using --config <path>.",
            ),
        }
    }
}

/// The configuration file to use: the given one, else the default one.
pub open spec fn chosen_config_path(custom: Option<Seq<u8>>, default: Option<Seq<u8>>) -> Result<
    Seq<u8>,
    ConfigPathError,
> {
    match custom {
        Some(p) => Ok(p),
        None => match default {
            Some(p) => Ok(p),
            None => Err(ConfigPathError::NoDefaultDirectory),
        },
    }
}

/// A path's bytes, kept in an option.
pub open spec fn opt_view(o: Option<Vec<u8>>) -> Option<Seq<u8>> {
    match o {
        Some(s) => Some(s@),
        None => None,
    }
}

/// A path result's bytes.
pub open spec fn path_result_view(r: Result<Vec<u8>, ConfigPathError>) -> Result<
    Seq<u8>,
    ConfigPathError,
> {
    match r {
        Ok(s) => Ok(s@),
        Err(e) => Err(e),
    }
}

/// The configuration file to use, given the default one.
pub fn resolve_config_path(custom_path: Option<Vec<u8>>, default_path: Option<Vec<u8>>) -> (r: Result<
    Vec<u8>,
    ConfigPathError,
>)
    ensures
        path_result_view(r) == chosen_config_path(opt_view(custom_path), opt_view(default_path)),
{
    match custom_path {
        Some(p) => Ok(p),
        None => match default_path {
            Some(p) => Ok(p),
            None => Err(ConfigPathError::NoDefaultDirectory),
        },
    }
}

/// The configuration file to use: `custom_path` where given, else the
/// default one under the home directory; an error where there is neither.
pub fn get_config_path(custom_path: Option<Vec<u8>>) -> (r: Result<Vec<u8>, ConfigPathError>)
    ensures
        custom_path matches Some(p) ==> path_result_view(r) == Ok::<Seq<u8>, ConfigPathError>(
            p@,
        ),
        custom_path is None ==> (r matches Ok(p) ==> exists|h: Seq<u8>|
            p@ == config_path_under(h)),
{
    if custom_path.is_some() {
        return resolve_config_path(custom_path, None);
    }
    let default_path = get_default_config_path();
    resolve_config_path(custom_path, default_path)
}

} // verus!
