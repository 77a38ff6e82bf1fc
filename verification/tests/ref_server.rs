//! The same service behaviour, exercised on the single-process
//! reference server.

use tribbler::err::TribError;
use tribbler::ref_front::FrontServer;

#[test]
fn ref_signup_and_listing() {
    let mut srv = FrontServer::new();
    assert!(matches!(srv.sign_up("B!"), Err(TribError::InvalidUsername(_))));
    srv.sign_up("bob").unwrap();
    assert!(matches!(srv.sign_up("bob"), Err(TribError::UsernameTaken(_))));
    srv.sign_up("alice").unwrap();
    let users = srv.list_users().unwrap();
    assert_eq!(users, vec!["alice".to_string(), "bob".to_string()]);
}

#[test]
fn ref_follow_cycle() {
    let mut srv = FrontServer::new();
    srv.sign_up("bob").unwrap();
    srv.sign_up("alice").unwrap();
    assert!(matches!(srv.follow("bob", "bob"), Err(TribError::WhoWhom(_))));
    assert!(srv.is_following("bob", "alice").unwrap() == false);
    srv.follow("bob", "alice").unwrap();
    assert!(srv.is_following("bob", "alice").unwrap());
    assert!(matches!(
        srv.follow("bob", "alice"),
        Err(TribError::AlreadyFollowing(_, _))
    ));
    let f = srv.following("bob").unwrap();
    assert_eq!(f, vec!["alice".to_string()]);
    srv.unfollow("bob", "alice").unwrap();
    assert!(!srv.is_following("bob", "alice").unwrap());
    assert!(matches!(
        srv.unfollow("bob", "alice"),
        Err(TribError::NotFollowing(_, _))
    ));
}

#[test]
fn ref_post_tribs_home() {
    let mut srv = FrontServer::new();
    srv.sign_up("bob").unwrap();
    srv.sign_up("alice").unwrap();
    srv.follow("bob", "alice").unwrap();
    for i in 0..3 {
        srv.post("bob", &format!("b{}", i), 0).unwrap();
        srv.post("alice", &format!("a{}", i), 0).unwrap();
    }
    let tb = srv.tribs("bob").unwrap();
    assert_eq!(tb.len(), 3);
    assert_eq!(tb[0].message, "b0");
    assert_eq!(tb[2].message, "b2");
    let home = srv.home("bob").unwrap();
    assert_eq!(home.len(), 6);
    for w in home.windows(2) {
        assert!(w[0].clock < w[1].clock);
    }
    // alice does not follow bob, so her home holds only her own posts
    let ha = srv.home("alice").unwrap();
    assert_eq!(ha.len(), 3);
    let long = "X".repeat(141);
    assert!(matches!(srv.post("bob", &long, 0), Err(TribError::TribTooLong)));
    assert!(matches!(
        srv.post("ghost", "hi", 0),
        Err(TribError::UserDoesNotExist(_))
    ));
}

#[test]
fn ref_home_caps_at_one_hundred() {
    let mut srv = FrontServer::new();
    srv.sign_up("bob").unwrap();
    srv.sign_up("amy").unwrap();
    srv.follow("bob", "amy").unwrap();
    for i in 0..80 {
        srv.post("bob", &format!("b{}", i), 0).unwrap();
        srv.post("amy", &format!("a{}", i), 0).unwrap();
    }
    let home = srv.home("bob").unwrap();
    assert_eq!(home.len(), 100);
    let tribs = srv.tribs("bob").unwrap();
    assert_eq!(tribs.len(), 80);
}
