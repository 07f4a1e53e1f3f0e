use kahui::desktop::{Row, UiError};
use kahui::net::portmap::Attempt;
use kahui::node::Reachability;
use kahui::session::ReachabilityArg;

#[test]
fn an_error_says_whether_waiting_might_help() {
    assert!(!UiError::new("broken".into()).transient);
    assert!(UiError::transient("busy syncing".into()).transient);
    assert_eq!(UiError::new("broken".into()).message, "broken");
}

#[test]
fn a_check_row_carries_the_outcome() {
    let row = Row::result("UPnP", &Attempt::Worked("accepted a timed lease".into()));
    assert_eq!(row.label, "UPnP");
    assert_eq!(row.value, "accepted a timed lease");
    assert_eq!(row.ok, Some(true));
    assert_eq!(Row::result("PCP", &Attempt::Refused("no".into())).ok, Some(false));
    assert_eq!(Row::new("Port", "4001".into()).ok, None);
}

#[test]
fn reachability_on_the_command_line() {
    assert_eq!(ReachabilityArg::Auto.resolve(), None);
    assert_eq!(ReachabilityArg::Direct.resolve(), Some(Reachability::Direct));
    assert_eq!(ReachabilityArg::Nat.resolve(), Some(Reachability::BehindNat));
}

#[test]
fn a_locked_database_means_another_copy_is_running() {
    let e = kahui::desktop::explain_startup_failure("Database already open. Cannot acquire lock.", "/home/ana/.kahui");
    assert!(e.message.starts_with("Another copy of Kāhui is already using /home/ana/.kahui."));
    let e = kahui::desktop::explain_startup_failure("disk full", "/tmp/x");
    assert_eq!(e.message, "Kāhui could not start: disk full");
    assert!(!e.transient);
}

#[test]
fn a_name_must_have_something_in_it() {
    assert_eq!(kahui::desktop::chosen_name("  ana "), Ok("ana".to_string()));
    assert_eq!(kahui::desktop::chosen_name("   ").unwrap_err().message, "Pick a name to be known by.");
}
