//! The service-level test suite, run against the sharded front end over
//! three in-memory back ends.

use tribbler::front::FrontendServer;
use tribbler::storage::MemStorage;
use tribbler::err::TribError;
use tribbler::trib::{MAX_TRIB_FETCH, MAX_TRIB_LEN};

fn setup_3() -> FrontendServer {
    FrontendServer::new(vec![MemStorage::new(), MemStorage::new(), MemStorage::new()])
}

#[test]
fn test_signup() {
    let mut srv = setup_3();

    // Invalid Name
    let r = srv.sign_up("");
    assert!(r.is_err());

    // Add Bob
    let expected_users = vec!["bob".to_string()];
    let r = srv.sign_up("bob");
    assert!(r.is_ok());
    let users = srv.list_users().unwrap();
    assert_eq!(expected_users, users);

    // Add Bob again
    let r = srv.sign_up("bob");
    assert!(r.is_err());

    // Add Alice
    let expected_users = vec!["alice".to_string(), "bob".to_string()];
    let r = srv.sign_up("alice");
    assert!(r.is_ok());
    let users = srv.list_users().unwrap();
    assert_eq!(expected_users, users);
}

#[test]
fn test_list_users() {
    let mut srv = setup_3();
    let names = vec![
        "z", "y", "x", "w", "v", "u", "t", "s", "r", "q", "p", "o", "n", "m", "l", "k", "j", "i",
        "h", "g", "f", "e", "d", "c", "b", "a",
    ];
    let names_string: Vec<String> = names.iter().map(|ch| ch.to_string()).collect();

    for n in names {
        srv.sign_up(n).unwrap();
    }

    // the listing is the first MIN_LIST_USER names of all registered
    // names in alphabetical order
    let mut all = names_string.clone();
    all.sort();
    let expected = all[0..20].to_vec();

    let users = srv.list_users().unwrap();
    assert_eq!(users, expected);
}

#[test]
fn test_post() {
    let mut srv = setup_3();

    // Post too long
    let too_long = (0..(MAX_TRIB_LEN + 1)).map(|_| "X").collect::<String>();
    let r = srv.post("bob", &too_long, 0);
    assert!(r.is_err());

    let valid_post = (0..MAX_TRIB_LEN).map(|_| "X").collect::<String>();

    // User doesn't exist
    let r = srv.post("bob", &valid_post, 0);
    assert!(r.is_err());

    srv.sign_up("bob").unwrap();

    let r = srv.post("bob", &valid_post, 0);
    assert!(r.is_ok());

    // garbage collection
    for i in 0..(MAX_TRIB_FETCH + 50) {
        let post = i.to_string();
        srv.post("bob", &post, 0).unwrap();
    }
    srv.tribs("bob").unwrap(); // garbage collection

    let bin = srv.bin_storage.bin("bob");
    let serialized_tribs = bin.list_get(&srv.bin_storage.backs[bin.back], "tribs");
    assert_eq!(serialized_tribs.len(), MAX_TRIB_FETCH);
}

#[test]
fn test_tribs() {
    let mut srv = setup_3();

    srv.sign_up("bob").unwrap();

    // fetch 2 tribs
    let post = "a";
    srv.post("bob", post, 0).unwrap();
    srv.post("bob", post, 0).unwrap();
    let tribs = srv.tribs("bob").unwrap();
    assert_eq!(tribs.len(), 2);

    // fetch 100 tribs
    for _i in 0..MAX_TRIB_FETCH {
        let post = "b";
        srv.post("bob", post, 0).unwrap();
    }
    let tribs = srv.tribs("bob").unwrap();
    assert_eq!(tribs.len(), 100);
    // shouldn't be one of the initial 2 posts
    for t in tribs {
        assert_eq!(t.message, "b");
    }

    // garbage collection
    let bin = srv.bin_storage.bin("bob");
    let serialized_tribs = bin.list_get(&srv.bin_storage.backs[bin.back], "tribs");
    assert_eq!(serialized_tribs.len(), MAX_TRIB_FETCH);
}

#[test]
fn test_follow() {
    let mut srv = setup_3();

    // Bob doesn't exist
    let r = srv.follow("bob", "alice");
    assert!(r.is_err());
    srv.sign_up("bob").unwrap();

    // Alice doesn't exist
    let r = srv.follow("bob", "alice");
    assert!(r.is_err());
    srv.sign_up("alice").unwrap();

    // Bob can't follow Bob
    let r = srv.follow("bob", "bob");
    assert!(r.is_err());

    // Bob follows Alice
    let r = srv.follow("bob", "alice");
    assert!(r.is_ok());

    // Bob can't follow Alice again
    let r = srv.follow("bob", "alice");
    assert!(r.is_err());

    for i in 0..1999 {
        let name = format!("alice{}", i);
        srv.sign_up(&name).unwrap();
        srv.follow("bob", &name).unwrap();
    }

    // Too many follows
    srv.sign_up("malory").unwrap();
    let r = srv.follow("bob", "malory");
    assert!(r.is_err());
}

#[test]
fn test_unfollow() {
    let mut srv = setup_3();

    // Bob doesn't exist
    let r = srv.unfollow("bob", "alice");
    assert!(r.is_err());
    srv.sign_up("bob").unwrap();

    // Alice doesn't exist
    let r = srv.unfollow("bob", "alice");
    assert!(r.is_err());
    srv.sign_up("alice").unwrap();

    // Bob can't unfollow Bob
    let r = srv.unfollow("bob", "bob");
    assert!(r.is_err());

    // Bob can't unfollow Alice yet
    let r = srv.unfollow("bob", "alice");
    assert!(r.is_err());

    // Bob can unfollow Alice after following
    srv.follow("bob", "alice").unwrap();
    let r = srv.unfollow("bob", "alice");
    assert!(r.is_ok());
}

#[test]
fn test_is_following() {
    let mut srv = setup_3();

    // Bob doesn't exist
    let r = srv.is_following("bob", "alice");
    assert!(r.is_err());
    srv.sign_up("bob").unwrap();

    // Alice doesn't exist
    let r = srv.is_following("bob", "alice");
    assert!(r.is_err());
    srv.sign_up("alice").unwrap();

    // Bob can't follow Bob
    let r = srv.is_following("bob", "bob");
    assert!(r.is_err());

    // Bob isn't following Alice
    let r = srv.is_following("bob", "alice").unwrap();
    assert!(!r);

    // Bob follows Alice
    srv.follow("bob", "alice").unwrap();
    let r = srv.is_following("bob", "alice").unwrap();
    assert!(r);

    // Bob no longer follows Alice
    srv.unfollow("bob", "alice").unwrap();
    let r = srv.is_following("bob", "alice").unwrap();
    assert!(!r);
}

#[test]
fn test_following() {
    let mut srv = setup_3();

    // Bob doesn't exist
    let r = srv.following("bob");
    assert!(r.is_err());
    srv.sign_up("bob").unwrap();

    // Bob following no one
    let r = srv.following("bob").unwrap();
    assert_eq!(r.len(), 0);

    // Bob following Alice
    srv.sign_up("alice").unwrap();
    srv.follow("bob", "alice").unwrap();
    let r = srv.following("bob").unwrap();
    let expected = vec!["alice".to_string()];
    assert_eq!(r, expected);

    // Bob no longer following Alice
    srv.unfollow("bob", "alice").unwrap();
    let r = srv.following("bob").unwrap();
    assert_eq!(r.len(), 0);

    // Bob following 2000 users
    for i in 0..2000 {
        let name = format!("alice{}", i);
        srv.sign_up(&name).unwrap();
        srv.follow("bob", &name).unwrap();
    }

    let r = srv.following("bob").unwrap();
    assert_eq!(r.len(), 2000);

    // Bob unfollow 2000 users
    for i in 0..2000 {
        let name = format!("alice{}", i);
        srv.unfollow("bob", &name).unwrap();
    }

    let r = srv.following("bob").unwrap();
    assert_eq!(r.len(), 0);
}

#[test]
fn test_home() {
    let mut srv = setup_3();

    let mut names = Vec::new();

    // Bob doesn't exist
    let r = srv.following("bob");
    assert!(r.is_err());

    srv.sign_up("bob").unwrap();
    names.push("bob".to_string());

    // Should have no tribs
    let home = srv.home("bob").unwrap();
    assert_eq!(home.len(), 0);

    // Create 4 other users that bob follows
    for i in 0..4 {
        let name = format!("alice{}", i);
        srv.sign_up(&name).unwrap();
        srv.follow("bob", &name).unwrap();
        names.push(name);
    }

    for i in 0..names.len() {
        let name = &names[i];
        for _c in 0..(i + 1) {
            srv.post(name, "post", 0).unwrap();
        }
    }

    // Should pull in 15
    let home = srv.home("bob").unwrap();
    assert_eq!(home.len(), 15);

    for i in 0..names.len() {
        let name = &names[i];
        for _c in 0..20 {
            srv.post(name, "post", 0).unwrap();
        }
    }

    // Should pull in 100
    let home = srv.home("bob").unwrap();
    assert_eq!(home.len(), 100);
}

#[test]
fn home_is_sorted_and_capped() {
    let mut srv = setup_3();
    srv.sign_up("bob").unwrap();
    srv.sign_up("carol").unwrap();
    srv.sign_up("dave").unwrap();
    srv.follow("bob", "carol").unwrap();
    srv.follow("bob", "dave").unwrap();
    for i in 0..40 {
        srv.post("bob", &format!("b{}", i), 0).unwrap();
        srv.post("carol", &format!("c{}", i), 0).unwrap();
        srv.post("dave", &format!("d{}", i), 0).unwrap();
    }
    let home = srv.home("bob").unwrap();
    assert_eq!(home.len(), 100);
    for w in home.windows(2) {
        let a = &w[0];
        let b = &w[1];
        let ka = (a.clock, a.time, a.user.clone(), a.message.clone());
        let kb = (b.clock, b.time, b.user.clone(), b.message.clone());
        assert!(ka <= kb);
    }
}

#[test]
fn error_variants_come_when_promised() {
    let mut srv = setup_3();
    assert!(matches!(
        srv.sign_up("Bob"),
        Err(TribError::InvalidUsername(_))
    ));
    srv.sign_up("bob").unwrap();
    assert!(matches!(
        srv.sign_up("bob"),
        Err(TribError::UsernameTaken(_))
    ));
    assert!(matches!(
        srv.post("ghost", "hi", 0),
        Err(TribError::UserDoesNotExist(_))
    ));
    let long = "X".repeat(141);
    assert!(matches!(srv.post("bob", &long, 0), Err(TribError::TribTooLong)));
    assert!(matches!(
        srv.follow("bob", "bob"),
        Err(TribError::WhoWhom(_))
    ));
    srv.sign_up("alice").unwrap();
    srv.follow("bob", "alice").unwrap();
    assert!(matches!(
        srv.follow("bob", "alice"),
        Err(TribError::AlreadyFollowing(_, _))
    ));
    assert!(matches!(
        srv.unfollow("alice", "bob"),
        Err(TribError::NotFollowing(_, _))
    ));
    // drive the clock of bob's back end to its ceiling: the next follow
    // cannot take a fresh value
    srv.post("bob", "last", u64::MAX).unwrap();
    assert!(matches!(
        srv.follow("bob", "alice"),
        Err(TribError::MaxedSeq)
    ));
}

#[test]
fn sign_up_then_listed_while_few_users() {
    let mut srv = setup_3();
    srv.sign_up("carol").unwrap();
    srv.sign_up("bob").unwrap();
    let users = srv.list_users().unwrap();
    assert!(users.contains(&"bob".to_string()));
    assert!(users.contains(&"carol".to_string()));
    assert_eq!(users, vec!["bob".to_string(), "carol".to_string()]);
}

#[test]
fn keeper_round_aligns_clocks() {
    let mut srv = setup_3();
    srv.sign_up("bob").unwrap();
    srv.post("bob", "x", 77).unwrap();
    srv.sync_clocks();
    for b in &srv.bin_storage.backs {
        assert!(b.clock_value() >= 77);
    }
}
