use fasthash::spooky::Hash128;
use maglev::{ConsistentHasher, Maglev};

#[test]
fn test_maglev() {
    let m = Maglev::new(vec![
        "Monday",
        "Tuesday",
        "Wednesday",
        "Thursday",
        "Friday",
        "Saturday",
        "Sunday",
    ]);

    assert_eq!(m.nodes().len(), 7);
    assert_eq!(m.lookup().unwrap().len(), 701);
    assert!(m.lookup().unwrap().iter().all(|&n| n < m.nodes().len()));

    assert_eq!(m["alice"], "Friday");
    assert_eq!(m["bob"], "Wednesday");

    let m = Maglev::with_capacity(
        vec![
            "Monday",
            "Tuesday",
            "Wednesday",
            // "Thursday",
            "Friday",
            "Saturday",
            "Sunday",
        ],
        m.capacity(),
    );

    assert_eq!(m.nodes().len(), 6);
    assert_eq!(m.lookup().unwrap().len(), 701);
    assert!(m.lookup().unwrap().iter().all(|&n| n < m.nodes().len()));

    assert_eq!(m["alice"], "Friday");
    assert_eq!(m["bob"], "Wednesday");

    let m = Maglev::with_capacity(
        vec![
            "Monday",
            // "Tuesday",
            "Wednesday",
            // "Thursday",
            "Friday",
            "Saturday",
            "Sunday",
        ],
        m.capacity(),
    );

    assert_eq!(m.nodes().len(), 5);
    assert_eq!(m.lookup().unwrap().len(), 701);
    assert!(m.lookup().unwrap().iter().all(|&n| n < m.nodes().len()));

    assert_eq!(m["alice"], "Friday");
    assert_eq!(m["bob"], "Wednesday");

    let m = Maglev::with_capacity(
        vec![
            "Monday",
            "Tuesday",
            "Wednesday",
            // "Thursday",
            // "Friday",
            "Saturday",
            "Sunday",
        ],
        m.capacity(),
    );

    assert_eq!(m.nodes().len(), 5);
    assert_eq!(m.lookup().unwrap().len(), 701);
    assert!(m.lookup().unwrap().iter().all(|&n| n < m.nodes().len()));

    assert_eq!(m["alice"], "Saturday");
    assert_eq!(m["bob"], "Wednesday");
}

#[test]
fn test_maglev_with_custom_hasher() {
    let m = Maglev::with_hasher(
        vec![
            "Monday",
            "Tuesday",
            "Wednesday",
            "Thursday",
            "Friday",
            "Saturday",
            "Sunday",
        ],
        Hash128 {},
    );

    assert_eq!(m.nodes().len(), 7);
    assert_eq!(m.lookup().unwrap().len(), 701);
    assert!(m.lookup().unwrap().iter().all(|&n| n < m.nodes().len()));

    assert_eq!(m["alice"], "Monday");
    assert_eq!(m["bob"], "Wednesday");

    let m = Maglev::with_capacity_and_hasher(
        vec![
            "Monday", "Tuesday", // "Wednesday",
            "Thursday", // "Friday",
            "Saturday", "Sunday",
        ],
        m.capacity(),
        Hash128 {},
    );

    assert_eq!(m.nodes().len(), 5);
    assert_eq!(m.lookup().unwrap().len(), 701);
    assert!(m.lookup().unwrap().iter().all(|&n| n < m.nodes().len()));

    assert_eq!(m["alice"], "Monday");
    assert_eq!(m["bob"], "Sunday");
}

#[test]
fn test_maglev_with_empty_list() {
    let m = Maglev::<&str, _>::new(Vec::new());

    assert_eq!(m.nodes().len(), 0);
    assert!(m.lookup().is_none());

    assert_eq!(m.get("alice"), None);
}
