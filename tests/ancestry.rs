use availability_distribution::ancestry::{ancestors_in_same_session, next_session_query};

#[test]
fn k_ancestors_in_session() {
    let data: [(u64, u32); 7] = [
        (0x32, 3), // relay parent
        (0x31, 3), // grand parent
        (0x30, 3), // great ...
        (0x20, 2),
        (0x12, 1),
        (0x11, 1),
        (0x10, 1),
    ];
    const K: usize = 5;
    let expected: Vec<u64> = vec![data[1].0, data[2].0];

    // the chain is asked for K + 1 ancestors
    let k = K + 1;
    let ancestors: Vec<u64> = data[1..=k].iter().map(|x| x.0).collect();
    // session of the relay parent
    let desired = data[0].1;

    let mut sessions: Vec<u32> = Vec::new();
    let mut asked: Vec<u64> = Vec::new();
    while let Some(h) = next_session_query(&ancestors, desired, &sessions, K) {
        asked.push(h);
        // the answer is the session of the queried block's child
        let pos = data.iter().position(|x| x.0 == h).unwrap();
        sessions.push(data[pos - 1].1);
    }
    assert_eq!(asked, vec![data[2].0, data[3].0, data[4].0]);

    let result = ancestors_in_same_session(&ancestors, desired, &sessions, K);
    assert_eq!(result, expected);
}

#[test]
fn furthest_ancestor_is_never_kept() {
    // a head whose only ancestors are one block and the genesis
    let ancestors = vec![0x44, 0xAA];
    let sessions = vec![1];
    assert_eq!(next_session_query(&ancestors, 1, &Vec::new(), 3), Some(0xAA));
    assert_eq!(next_session_query(&ancestors, 1, &sessions, 3), None);
    assert_eq!(ancestors_in_same_session(&ancestors, 1, &sessions, 3), vec![0x44]);
}

#[test]
fn ancestry_is_bounded_by_k_and_by_failures() {
    let ancestors = vec![1, 2, 3, 4, 5];
    assert_eq!(ancestors_in_same_session(&ancestors, 9, &vec![9, 9, 9, 9], 2), vec![1, 2]);
    // a failed session query ends the run
    assert_eq!(ancestors_in_same_session(&ancestors, 9, &vec![9], 3), vec![1]);
    assert_eq!(ancestors_in_same_session(&Vec::new(), 9, &Vec::new(), 3), Vec::<u64>::new());
    assert_eq!(ancestors_in_same_session(&ancestors, 9, &vec![8, 9], 3), Vec::<u64>::new());
}
