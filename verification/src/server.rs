//! Server configuration.

use std::marker::PhantomData;

use vstd::prelude::*;

use crate::app::App;
use crate::bytes::same_text;
use crate::digits::{parse_usize, usize_of};

verus! {

/// An HTTP server for an application.
pub struct Server<A: App>(PhantomData<A>);

/// The configuration of a server.
pub struct ServerBuilder<A: App> {
    addr: String,
    port: u16,
    workers: usize,
    backlog: i32,
    sqpoll: bool,
    _app: PhantomData<A>,
}

/// What a configuration says.
pub struct BuilderView {
    /// The address to listen on.
    pub addr: Seq<char>,
    pub port: u16,
    /// The number of workers; zero leaves it open.
    pub workers: usize,
    pub backlog: i32,
    pub sqpoll: bool,
}

/// The settings that the environment may hold, each `None` where it does not.
pub struct LaunchEnv<'a> {
    /// The number of workers.
    pub workers: Option<&'a str>,
    /// Whether the kernel polls the submission queue.
    pub sqpoll: Option<&'a str>,
    /// The number of database connections of each worker.
    pub db_pool_size: Option<&'a str>,
}

/// How the server is to be run.
pub struct LaunchPlan {
    pub addr: String,
    pub port: u16,
    pub backlog: i32,
    pub workers: usize,
    pub sqpoll: bool,
    pub db_pool_size: usize,
}

/// The number of database connections of each worker, unless the environment
/// says otherwise.
pub const DEFAULT_DB_POOL_SIZE: usize = 7;

/// The number that a setting holds; `None` where it is not set or no number.
pub open spec fn setting_value(setting: Option<&str>) -> Option<usize> {
    match setting {
        Some(text) => usize_of(vstd::utf8::encode_utf8(text@)),
        None => None,
    }
}

/// The number of workers: a positive number in the environment comes first,
/// then a positive configured one, then the number of cores.
pub open spec fn workers_for(setting: Option<&str>, configured: usize, cores: usize) -> usize {
    match setting_value(setting) {
        Some(n) if n > 0 => n,
        _ => if configured > 0 {
            configured
        } else {
            cores
        },
    }
}

/// Whether the kernel polls the submission queue: where the environment holds
/// a value, it does if that is `1` or `true`; else as configured.
pub open spec fn sqpoll_for(setting: Option<&str>, configured: bool) -> bool {
    match setting {
        Some(text) => text@ == "1"@ || text@ == "true"@,
        None => configured,
    }
}

/// The number of database connections of each worker: the number in the
/// environment, where there is one.
pub open spec fn db_pool_size_for(setting: Option<&str>) -> usize {
    match setting_value(setting) {
        Some(n) => n,
        None => DEFAULT_DB_POOL_SIZE,
    }
}

impl<A: App> View for ServerBuilder<A> {
    type V = BuilderView;

    closed spec fn view(&self) -> BuilderView {
        BuilderView {
            addr: self.addr@,
            port: self.port,
            workers: self.workers,
            backlog: self.backlog,
            sqpoll: self.sqpoll,
        }
    }
}

impl<A: App> Server<A> {
    /// A configuration with the default settings.
    pub fn builder() -> (builder: ServerBuilder<A>)
        ensures
            builder@ == (BuilderView {
                addr: "0.0.0.0"@,
                port: 8080,
                workers: 0,
                backlog: 4096,
                sqpoll: false,
            }),
    {
        ServerBuilder {
            addr: "0.0.0.0".to_owned(),
            port: 8080,
            workers: 0,
            backlog: 4096,
            sqpoll: false,
            _app: PhantomData,
        }
    }
}

impl<A: App> ServerBuilder<A> {
    /// Sets the address to listen on.
    pub fn addr(self, addr: &str) -> (builder: Self)
        ensures
            builder@ == (BuilderView { addr: addr@, ..self@ }),
    {
        ServerBuilder { addr: addr.to_owned(), ..self }
    }

    /// Sets the port to listen on.
    pub fn port(self, port: u16) -> (builder: Self)
        ensures
            builder@ == (BuilderView { port, ..self@ }),
    {
        ServerBuilder { port, ..self }
    }

    /// Sets the number of workers; zero leaves it open.
    pub fn workers(self, n: usize) -> (builder: Self)
        ensures
            builder@ == (BuilderView { workers: n, ..self@ }),
    {
        ServerBuilder { workers: n, ..self }
    }

    /// Sets how many connections may wait to be accepted.
    pub fn backlog(self, n: i32) -> (builder: Self)
        ensures
            builder@ == (BuilderView { backlog: n, ..self@ }),
    {
        ServerBuilder { backlog: n, ..self }
    }

    /// Sets whether the kernel polls the submission queue.
    pub fn sqpoll(self, enabled: bool) -> (builder: Self)
        ensures
            builder@ == (BuilderView { sqpoll: enabled, ..self@ }),
    {
        ServerBuilder { sqpoll: enabled, ..self }
    }

    /// Settles how the server is to be run, from the configuration, the
    /// environment and the number of cores.
    pub fn plan(self, env: &LaunchEnv, cores: usize) -> (plan: LaunchPlan)
        ensures
            plan.addr@ == self@.addr,
            plan.port == self@.port,
            plan.backlog == self@.backlog,
            plan.workers == workers_for(env.workers, self@.workers, cores),
            plan.sqpoll == sqpoll_for(env.sqpoll, self@.sqpoll),
            plan.db_pool_size == db_pool_size_for(env.db_pool_size),
    {
        let env_workers: usize = match env.workers {
            Some(text) => match parse_usize(text.as_bytes()) {
                Some(n) => n,
                None => 0,
            },
            None => 0,
        };
        let workers: usize = if env_workers > 0 {
            env_workers
        } else if self.workers > 0 {
            self.workers
        } else {
            cores
        };
        let sqpoll = match env.sqpoll {
            Some(text) => same_text(text, "1") || same_text(text, "true"),
            None => self.sqpoll,
        };
        let db_pool_size: usize = match env.db_pool_size {
            Some(text) => match parse_usize(text.as_bytes()) {
                Some(n) => n,
                None => DEFAULT_DB_POOL_SIZE,
            },
            None => DEFAULT_DB_POOL_SIZE,
        };
        LaunchPlan {
            addr: self.addr,
            port: self.port,
            backlog: self.backlog,
            workers,
            sqpoll,
            db_pool_size,
        }
    }
}

/// On a machine with a core there is always a worker to run, whatever the
/// environment and the configuration say.
pub proof fn law_there_is_a_worker(setting: Option<&str>, configured: usize, cores: usize)
    requires
        cores > 0,
    ensures
        workers_for(setting, configured, cores) > 0,
{
}

/// The environment comes before the configuration, and that before the number
/// of cores: a positive number in the environment is the number of workers,
/// whatever else was said; a configured one counts where the environment holds
/// none; and the cores count where neither does.
pub proof fn law_environment_sets_the_workers(setting: Option<&str>, configured: usize, cores: usize)
    ensures
        ({
            let workers = workers_for(setting, configured, cores);
            let held = match setting {
                Some(text) => usize_of(vstd::utf8::encode_utf8(text@)),
                None => None,
            };
            let counts = held is Some && held->0 > 0;
            &&& counts ==> workers == held->0
            &&& !counts && configured > 0 ==> workers == configured
            &&& !counts && configured == 0 ==> workers == cores
        }),
{
}

/// Polling is switched on by `1` and by `true` in the environment, switched off
/// by any other text there, and as configured where the environment is silent.
pub proof fn law_environment_sets_the_polling(text: &str, configured: bool)
    ensures
        text@ == "1"@ ==> sqpoll_for(Some(text), configured),
        text@ == "true"@ ==> sqpoll_for(Some(text), configured),
        text@ != "1"@ && text@ != "true"@ ==> !sqpoll_for(Some(text), configured),
        sqpoll_for(None, configured) == configured,
{
}

/// Each worker has seven database connections, unless the environment holds a
/// number: then it has so many.
pub proof fn law_environment_sets_the_pool(text: &str)
    ensures
        db_pool_size_for(None) == 7,
        usize_of(vstd::utf8::encode_utf8(text@)) is None ==> db_pool_size_for(Some(text)) == 7,
        usize_of(vstd::utf8::encode_utf8(text@)) matches Some(n) ==> db_pool_size_for(Some(text))
            == n,
{
}

} // verus!
