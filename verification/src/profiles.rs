//! Named backend profiles.
//!
//! A profile is shorthand for a set of upstream tuning values that a backend
//! stack wants. Profiles are opt-in, fill in only what an upstream did not set
//! itself, and report every value they contribute.

use crate::text;
use vstd::prelude::*;
use vstd::string::*;

verus! {

/// Upstream timeouts, in seconds.
#[derive(Debug, Clone, Copy, PartialEq, Eq, Structural)]
pub struct UpstreamTimeouts {
    /// Connect timeout.
    pub connect_secs: u64,
    /// Whole-request timeout.
    pub request_secs: u64,
    /// Read timeout.
    pub read_secs: u64,
    /// Write timeout.
    pub write_secs: u64,
}

/// Connection pool settings.
#[derive(Debug, Clone, Copy, PartialEq, Eq, Structural)]
pub struct ConnectionPoolConfig {
    /// Maximum pooled connections per target.
    pub max_connections: usize,
    /// Maximum idle connections kept per target.
    pub max_idle: usize,
    /// How long an idle connection is kept, in seconds.
    pub idle_timeout_secs: u64,
    /// Hard cap on connection age, in seconds.
    pub max_lifetime_secs: Option<u64>,
}

/// A named bundle of upstream tuning values for a known backend stack.
#[derive(Debug, PartialEq, Eq)]
pub struct BackendProfile {
    /// Name used in configuration files.
    pub name: &'static str,
    /// One-line description of the backend.
    pub summary: &'static str,
    /// Connect timeout, seconds.
    pub connect_secs: u64,
    /// Whole-request timeout, seconds.
    pub request_secs: u64,
    /// Read timeout, seconds.
    pub read_secs: u64,
    /// Write timeout, seconds.
    pub write_secs: u64,
    /// Maximum pooled connections per target.
    pub max_connections: usize,
    /// Maximum idle connections kept per target.
    pub max_idle: usize,
    /// How long an idle pooled connection is kept, seconds.
    pub idle_timeout_secs: u64,
    /// Hard cap on connection age, seconds.
    pub max_lifetime_secs: Option<u64>,
    /// Assumptions an operator has to check against their own backend.
    pub assumptions: Vec<&'static str>,
}

/// The values of a profile.
#[verifier::ext_equal]
pub ghost struct Profile {
    pub name: Seq<char>,
    pub summary: Seq<char>,
    pub timeouts: UpstreamTimeouts,
    pub pool: ConnectionPoolConfig,
    pub assumptions: Seq<Seq<char>>,
}

impl DeepView for BackendProfile {
    type V = Profile;

    open spec fn deep_view(&self) -> Profile {
        Profile {
            name: self.name@,
            summary: self.summary@,
            timeouts: UpstreamTimeouts {
                connect_secs: self.connect_secs,
                request_secs: self.request_secs,
                read_secs: self.read_secs,
                write_secs: self.write_secs,
            },
            pool: ConnectionPoolConfig {
                max_connections: self.max_connections,
                max_idle: self.max_idle,
                idle_timeout_secs: self.idle_timeout_secs,
                max_lifetime_secs: self.max_lifetime_secs,
            },
            assumptions: self.assumptions@.map_values(|s: &'static str| s@),
        }
    }
}

/// Apache httpd on a shared-hosting box.
pub open spec fn apache_profile() -> Profile {
    Profile {
        name: "apache-shared-hosting"@,
        summary: "Apache httpd (prefork/event) on a shared-hosting box, typically on loopback"@,
        timeouts: UpstreamTimeouts {
            connect_secs: 5,
            request_secs: 60,
            read_secs: 60,
            write_secs: 60,
        },
        pool: ConnectionPoolConfig {
            max_connections: 64,
            max_idle: 16,
            idle_timeout_secs: 3,
            max_lifetime_secs: Some(30),
        },
        assumptions: seq![
            "Apache KeepAliveTimeout is the default 5s — if you lowered it, lower idle-timeout too"@,
            "Apache is reachable on a local or low-latency network (connect timeout is 5s)"@,
        ],
    }
}

/// LiteSpeed and OpenLiteSpeed.
pub open spec fn litespeed_profile() -> Profile {
    Profile {
        name: "litespeed"@,
        summary: "LiteSpeed / OpenLiteSpeed, event-driven and cheap to keep connections against"@,
        timeouts: UpstreamTimeouts {
            connect_secs: 5,
            request_secs: 120,
            read_secs: 120,
            write_secs: 120,
        },
        pool: ConnectionPoolConfig {
            max_connections: 256,
            max_idle: 64,
            idle_timeout_secs: 4,
            max_lifetime_secs: Some(120),
        },
        assumptions: seq![
            "LiteSpeed keep-alive timeout is 5s or more"@,
            "The backend's max connections comfortably exceeds 256 per Zentinel instance"@,
        ],
    }
}

/// Apache in front of PHP-FPM.
pub open spec fn php_fpm_profile() -> Profile {
    Profile {
        name: "php-fpm-behind-apache"@,
        summary: "Apache in front of PHP-FPM, where slow PHP requests are normal"@,
        timeouts: UpstreamTimeouts {
            connect_secs: 5,
            request_secs: 300,
            read_secs: 300,
            write_secs: 60,
        },
        pool: ConnectionPoolConfig {
            max_connections: 32,
            max_idle: 8,
            idle_timeout_secs: 3,
            max_lifetime_secs: Some(30),
        },
        assumptions: seq![
            "PHP max_execution_time is 300s or less"@,
            "PHP-FPM pm.max_children is comfortably above 32 per Zentinel instance"@,
        ],
    }
}

/// Every shipped profile.
pub open spec fn shipped() -> Seq<Profile> {
    seq![apache_profile(), litespeed_profile(), php_fpm_profile()]
}

/// Every profile that ships.
pub fn profiles() -> (r: Vec<BackendProfile>)
    ensures
        r.deep_view() == shipped(),
{
    let apache = BackendProfile {
        name: "apache-shared-hosting",
        summary: "Apache httpd (prefork/event) on a shared-hosting box, typically on loopback",
        // Apache on the same host either accepts at once or is out of workers.
        connect_secs: 5,
        request_secs: 60,
        read_secs: 60,
        write_secs: 60,
        // Shared hosting caps workers across all vhosts.
        max_connections: 64,
        max_idle: 16,
        // Below Apache's default keep-alive of 5 seconds: the pool recycles a
        // connection before Apache closes it.
        idle_timeout_secs: 3,
        max_lifetime_secs: Some(30),
        assumptions: vec![
            "Apache KeepAliveTimeout is the default 5s — if you lowered it, lower idle-timeout too",
            "Apache is reachable on a local or low-latency network (connect timeout is 5s)",
        ],
    };
    let litespeed = BackendProfile {
        name: "litespeed",
        summary: "LiteSpeed / OpenLiteSpeed, event-driven and cheap to keep connections against",
        connect_secs: 5,
        request_secs: 120,
        read_secs: 120,
        write_secs: 120,
        // No worker per connection, so a wider pool is safe.
        max_connections: 256,
        max_idle: 64,
        idle_timeout_secs: 4,
        max_lifetime_secs: Some(120),
        assumptions: vec![
            "LiteSpeed keep-alive timeout is 5s or more",
            "The backend's max connections comfortably exceeds 256 per Zentinel instance",
        ],
    };
    let php_fpm = BackendProfile {
        name: "php-fpm-behind-apache",
        summary: "Apache in front of PHP-FPM, where slow PHP requests are normal",
        connect_secs: 5,
        // PHP scripts routinely run to their execution limit.
        request_secs: 300,
        read_secs: 300,
        write_secs: 60,
        // Excess load is shed at the edge instead of queueing in FPM.
        max_connections: 32,
        max_idle: 8,
        idle_timeout_secs: 3,
        max_lifetime_secs: Some(30),
        assumptions: vec![
            "PHP max_execution_time is 300s or less",
            "PHP-FPM pm.max_children is comfortably above 32 per Zentinel instance",
        ],
    };
    assert(apache.deep_view() =~= apache_profile()) by {
        assert(apache.deep_view().assumptions =~= apache_profile().assumptions);
    }
    assert(litespeed.deep_view() =~= litespeed_profile()) by {
        assert(litespeed.deep_view().assumptions =~= litespeed_profile().assumptions);
    }
    assert(php_fpm.deep_view() =~= php_fpm_profile()) by {
        assert(php_fpm.deep_view().assumptions =~= php_fpm_profile().assumptions);
    }
    let r = vec![apache, litespeed, php_fpm];
    assert(r.deep_view() =~= shipped());
    r
}

impl BackendProfile {
    /// Look up a profile by its name.
    pub fn find(name: &str) -> (r: Option<BackendProfile>)
        ensures
            (match r {
                Some(p) => shipped().contains(p.deep_view()) && p.deep_view().name == name@,
                None => forall|i: int| 0 <= i < shipped().len() ==> (#[trigger] shipped()[i]).name
                    != name@,
            }),
    {
        let mut all = profiles();
        let mut i: usize = 0;
        while i < all.len()
            invariant
                i <= all@.len(),
                all.deep_view() == shipped(),
                forall|j: int| 0 <= j < i ==> (#[trigger] shipped()[j]).name != name@,
            decreases all@.len() - i,
        {
            assert(shipped()[i as int] == all@[i as int].deep_view());
            if text::same(all[i].name, name) {
                return Some(all.swap_remove(i));
            }
            i = i + 1;
        }
        assert(all.deep_view().len() == all@.len());
        None
    }

    /// Every profile name, for error messages and documentation.
    pub fn names() -> (r: Vec<&'static str>)
        ensures
            r@.len() == shipped().len(),
            forall|i: int| 0 <= i < r@.len() ==> (#[trigger] r@[i])@ == shipped()[i].name,
    {
        let all = profiles();
        let mut out: Vec<&'static str> = Vec::new();
        let mut i: usize = 0;
        assert(all.deep_view().len() == all@.len());
        while i < all.len()
            invariant
                i <= all@.len(),
                all.deep_view() == shipped(),
                all@.len() == shipped().len(),
                out@.len() == i,
                forall|j: int| 0 <= j < i ==> (#[trigger] out@[j])@ == shipped()[j].name,
            decreases all@.len() - i,
        {
            assert(shipped()[i as int] == all@[i as int].deep_view());
            out.push(all[i].name);
            i = i + 1;
        }
        out
    }

    /// Timeout values this profile contributes.
    pub fn timeouts(&self) -> (r: UpstreamTimeouts)
        ensures
            r == self.deep_view().timeouts,
    {
        UpstreamTimeouts {
            connect_secs: self.connect_secs,
            request_secs: self.request_secs,
            read_secs: self.read_secs,
            write_secs: self.write_secs,
        }
    }

    /// Connection-pool values this profile contributes.
    pub fn connection_pool(&self) -> (r: ConnectionPoolConfig)
        ensures
            r == self.deep_view().pool,
    {
        ConnectionPoolConfig {
            max_connections: self.max_connections,
            max_idle: self.max_idle,
            idle_timeout_secs: self.idle_timeout_secs,
            max_lifetime_secs: self.max_lifetime_secs,
        }
    }
}

/// Every shipped profile recycles idle connections before a backend with the
/// usual keep-alive window of five seconds closes them, and documents what it
/// assumes.
pub proof fn profiles_stay_under_keepalive(i: int)
    requires
        0 <= i < shipped().len(),
    ensures
        shipped()[i].pool.idle_timeout_secs < 5,
        shipped()[i].assumptions.len() > 0,
        shipped()[i].summary.len() > 0,
{
    reveal_strlit("Apache httpd (prefork/event) on a shared-hosting box, typically on loopback");
    reveal_strlit("LiteSpeed / OpenLiteSpeed, event-driven and cheap to keep connections against");
    reveal_strlit("Apache in front of PHP-FPM, where slow PHP requests are normal");
}

/// No two shipped profiles share a name.
pub proof fn profile_names_differ(i: int, j: int)
    requires
        0 <= i < j < shipped().len(),
    ensures
        shipped()[i].name != shipped()[j].name,
{
    reveal_strlit("apache-shared-hosting");
    reveal_strlit("litespeed");
    reveal_strlit("php-fpm-behind-apache");
    assert("apache-shared-hosting"@[0] != "php-fpm-behind-apache"@[0]);
}

/// What a profile contributed to one upstream.
#[derive(Debug, PartialEq, Eq)]
pub struct AppliedProfile {
    /// Profile name as written in the configuration.
    pub name: String,
    /// Settings the profile supplied, in configuration order.
    pub settings: Vec<ProfileSetting>,
}

/// One setting a profile supplied.
#[derive(Debug, PartialEq, Eq)]
pub struct ProfileSetting {
    /// Path of the setting, e.g. `timeouts.connect`.
    pub field: String,
    /// Value as it would be written in a configuration file.
    pub value: String,
}

/// A setting as `field=value`.
pub open spec fn setting_text(s: ProfileSetting) -> Seq<char> {
    s.field@ + "="@ + s.value@
}

/// Settings as `field=value` texts.
pub open spec fn setting_texts(s: Seq<ProfileSetting>) -> Seq<Seq<char>> {
    s.map_values(|x: ProfileSetting| setting_text(x))
}

impl AppliedProfile {
    /// The contributed settings as `field=value` texts.
    pub fn pairs(&self) -> (r: Vec<String>)
        ensures
            r.deep_view() == setting_texts(self.settings@),
    {
        let mut out: Vec<String> = Vec::new();
        let mut i: usize = 0;
        while i < self.settings.len()
            invariant
                i <= self.settings@.len(),
                out.deep_view() == setting_texts(self.settings@.take(i as int)),
            decreases self.settings@.len() - i,
        {
            let ghost before = out.deep_view();
            let mut t = self.settings[i].field.clone();
            t.append("=");
            t.append(self.settings[i].value.as_str());
            let ghost tv = t@;
            out.push(t);
            proof {
                assert(out.deep_view() =~= before.push(tv));
                assert(out.deep_view() =~= setting_texts(self.settings@.take(i + 1)));
            }
            i = i + 1;
        }
        assert(self.settings@.take(i as int) =~= self.settings@);
        out
    }

    /// The contributed settings as one line of `field=value` pairs.
    pub fn summary(&self) -> (r: String)
        ensures
            r@ == text::join(setting_texts(self.settings@), ", "@),
    {
        let parts = self.pairs();
        text::join_with(&parts, ", ")
    }
}

impl ProfileSetting {
    /// A setting from its path and its value in text form.
    pub fn new(field: &str, value: &str) -> (r: ProfileSetting)
        ensures
            r.field@ == field@,
            r.value@ == value@,
    {
        ProfileSetting { field: field.to_owned(), value: value.to_owned() }
    }
}

/// A profile gives up on a connection after five seconds and on a request after what its
/// backend needs: a minute behind Apache, two behind LiteSpeed, five where PHP runs. Idle
/// connections are a quarter of all, and none outlives two minutes.
pub proof fn profiles_fit_their_backends(i: int)
    requires
        0 <= i < shipped().len(),
    ensures
        shipped().len() == 3,
        shipped()[i].timeouts.connect_secs == 5,
        shipped()[i].timeouts.read_secs == shipped()[i].timeouts.request_secs,
        shipped()[i].timeouts.write_secs <= shipped()[i].timeouts.request_secs,
        shipped()[i].name == "apache-shared-hosting"@ ==> shipped()[i].timeouts.request_secs == 60,
        shipped()[i].name == "litespeed"@ ==> shipped()[i].timeouts.request_secs == 120,
        shipped()[i].name == "php-fpm-behind-apache"@ ==> shipped()[i].timeouts.request_secs
            == 300,
        4 * shipped()[i].pool.max_idle == shipped()[i].pool.max_connections,
        shipped()[i].pool.max_lifetime_secs matches Some(s) && shipped()[i].pool.idle_timeout_secs
            < s <= 120,
{
    reveal_strlit("apache-shared-hosting");
    reveal_strlit("litespeed");
    reveal_strlit("php-fpm-behind-apache");
    assert("apache-shared-hosting"@.len() == 21 && "litespeed"@.len() == 9);
    assert("apache-shared-hosting"@[0] == 'a' && "php-fpm-behind-apache"@[0] == 'p'
        && "litespeed"@[0] == 'l');
}

/// The settings that a profile supplied are listed in order, each as its path and its
/// value.
pub proof fn settings_in_words(s: Seq<ProfileSetting>, i: int)
    requires
        0 <= i < s.len(),
    ensures
        setting_texts(s).len() == s.len(),
        setting_texts(s)[i] == s[i].field@ + seq!['='] + s[i].value@,
{
    reveal_strlit("=");
    assert("="@ =~= seq!['=']);
}

} // verus!
