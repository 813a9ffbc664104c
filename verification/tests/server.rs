use vortex::app::{App, RouteAction};
use vortex::date::DateCache;
use vortex::server::{LaunchEnv, Server};

struct Nothing;

impl App for Nothing {
    type DbState = ();

    fn classify(_buf: &[u8]) -> RouteAction {
        RouteAction::NotFound
    }

    fn handle_fast(_id: u8, _recv: &[u8], _send: &mut [u8], _date: &DateCache) -> (usize, usize) {
        (0, 0)
    }

    fn db_statements() -> Vec<(&'static str, &'static str, &'static [u32])> {
        Vec::new()
    }

    fn db_start(_id: u8, _queries: i32, _wbuf: &mut Vec<u8>, _state: &mut ()) {}

    fn db_finish(
        _state: &mut (),
        _rbuf: &[u8],
        _rpos: usize,
        _send: &mut [u8],
        _date: &DateCache,
        _body: &mut [u8],
    ) -> usize {
        0
    }
}

fn unset() -> LaunchEnv<'static> {
    LaunchEnv { workers: None, sqpoll: None, db_pool_size: None }
}

#[test]
fn the_defaults_are_settled_by_the_machine() {
    let plan = Server::<Nothing>::builder().plan(&unset(), 6);
    assert_eq!(plan.addr, "0.0.0.0");
    assert_eq!((plan.port, plan.backlog), (8080, 4096));
    assert_eq!((plan.workers, plan.sqpoll, plan.db_pool_size), (6, false, 7));
}

#[test]
fn each_setting_changes_only_itself() {
    let plan = Server::<Nothing>::builder()
        .addr("127.0.0.1")
        .port(81)
        .workers(3)
        .backlog(16)
        .sqpoll(true)
        .plan(&unset(), 6);
    assert_eq!(plan.addr, "127.0.0.1");
    assert_eq!((plan.port, plan.backlog), (81, 16));
    assert_eq!((plan.workers, plan.sqpoll, plan.db_pool_size), (3, true, 7));
    let plan = Server::<Nothing>::builder().port(1).port(2).plan(&unset(), 1);
    assert_eq!((plan.port, plan.addr.as_str(), plan.workers), (2, "0.0.0.0", 1));
}

#[test]
fn the_environment_comes_before_the_configuration() {
    let env = LaunchEnv { workers: Some("12"), sqpoll: Some("true"), db_pool_size: Some("0") };
    let plan = Server::<Nothing>::builder().workers(3).plan(&env, 6);
    assert_eq!((plan.workers, plan.sqpoll, plan.db_pool_size), (12, true, 0));
}

#[test]
fn settings_that_are_no_numbers_are_passed_over() {
    let env = LaunchEnv { workers: Some("many"), sqpoll: Some("1"), db_pool_size: Some("") };
    let plan = Server::<Nothing>::builder().workers(3).plan(&env, 6);
    assert_eq!((plan.workers, plan.sqpoll, plan.db_pool_size), (3, true, 7));
    let env = LaunchEnv { workers: Some("0"), sqpoll: Some("yes"), db_pool_size: Some("-1") };
    let plan = Server::<Nothing>::builder().sqpoll(true).plan(&env, 6);
    assert_eq!((plan.workers, plan.sqpoll, plan.db_pool_size), (6, false, 7));
}
