use file_explorer::NavigationController;

fn current(n: &NavigationController) -> String {
    n.current_path().unwrap()
}

#[test]
fn fresh_controller_has_no_history() {
    let n = NavigationController::new();
    assert!(n.current_path().is_none());
    assert!(!n.can_go_back());
    assert!(!n.can_go_forward());
    assert!(!n.refresh());
}

#[test]
fn distinct_navigations_fill_the_back_stack() {
    let mut n = NavigationController::new();
    assert!(n.navigate_to("/a", true));
    assert!(!n.can_go_back());
    assert!(n.navigate_to("/b", true));
    assert!(n.navigate_to("/c", true));
    let mut steps = 0;
    while n.back() {
        steps += 1;
    }
    assert_eq!(steps, 2);
    assert_eq!(current(&n), "/a");
}

#[test]
fn back_then_forward_restores_the_path() {
    let mut n = NavigationController::new();
    n.navigate_to("/a", true);
    n.navigate_to("/b", true);
    assert!(n.back());
    assert_eq!(current(&n), "/a");
    assert!(n.can_go_forward());
    assert!(n.forward());
    assert_eq!(current(&n), "/b");
    assert!(!n.can_go_forward());
    assert!(n.can_go_back());
}

#[test]
fn navigating_to_the_current_path_changes_nothing() {
    let mut n = NavigationController::new();
    n.navigate_to("/a", true);
    n.navigate_to("/b", true);
    n.back();
    assert!(!n.navigate_to("/a", true));
    assert!(n.can_go_forward());
    assert!(!n.can_go_back());
    assert_eq!(current(&n), "/a");
}

#[test]
fn new_navigation_drops_forward_history() {
    let mut n = NavigationController::new();
    n.navigate_to("/a", true);
    n.navigate_to("/b", true);
    n.back();
    assert!(n.navigate_to("/c", true));
    assert!(!n.can_go_forward());
    assert!(!n.forward());
    assert!(n.back());
    assert_eq!(current(&n), "/a");
}

#[test]
fn unrecorded_navigation_keeps_the_stacks() {
    let mut n = NavigationController::new();
    n.navigate_to("/a", true);
    n.navigate_to("/b", true);
    n.back();
    assert!(n.navigate_to("/x", false));
    assert_eq!(current(&n), "/x");
    assert!(n.can_go_forward());
    assert!(!n.can_go_back());
}

#[test]
fn back_and_forward_without_history_do_nothing() {
    let mut n = NavigationController::new();
    n.navigate_to("/a", true);
    assert!(!n.back());
    assert!(!n.forward());
    assert_eq!(current(&n), "/a");
    assert!(n.refresh());
}

#[test]
fn up_goes_to_the_parent_and_records_it() {
    let mut n = NavigationController::new();
    n.navigate_to("/home/user/docs", true);
    assert!(n.up());
    assert_eq!(current(&n), "/home/user");
    assert!(n.up());
    assert_eq!(current(&n), "/home");
    assert!(n.up());
    assert_eq!(current(&n), "/");
    assert!(!n.up());
    assert_eq!(current(&n), "/");
    assert!(n.back());
    assert_eq!(current(&n), "/home");
}

#[test]
fn up_before_any_navigation_does_nothing() {
    let mut n = NavigationController::new();
    assert!(!n.up());
    assert!(n.current_path().is_none());
}

#[test]
fn navigating_to_the_same_path_spelled_differently_changes_nothing() {
    let mut n = NavigationController::new();
    n.navigate_to("/a/b", true);
    assert!(!n.navigate_to("/a/b/", true));
    assert!(!n.navigate_to("/a//b", true));
    assert!(!n.can_go_back());
    assert_eq!(current(&n), "/a/b");
}
