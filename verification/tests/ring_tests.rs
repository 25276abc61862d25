use consistant::Consistant;

#[test]
fn test_default() {
    let consistant = Consistant::default();

    assert_eq!(consistant.replicas_num, 20);
    assert_eq!(consistant.point_count(), 0);
    assert_eq!(consistant.point_count(), 0);
}

#[test]
fn test_new() {
    let consistant = Consistant::new(30);

    assert_eq!(consistant.replicas_num, 30);
    assert_eq!(consistant.point_count(), 0);
    assert_eq!(consistant.point_count(), 0);
}

#[test]
fn test_count() {
    let mut consistant = Consistant::default();
    consistant.add("cacheA");
    consistant.add("cacheB");
    consistant.add("cacheC");
    assert_eq!(consistant.count(), 3);
}

#[test]
fn test_add() {
    let mut consistant = Consistant::default();
    consistant.add("cacheA");
    consistant.add("cacheB");
    consistant.add("cacheC");

    assert_eq!(consistant.point_count(), 3 * consistant.replicas_num);
    assert_eq!(consistant.point_count(), 3 * consistant.replicas_num);
}

#[test]
fn test_contains() {
    let mut consistant = Consistant::default();
    consistant.add("cacheA");

    assert_eq!(consistant.contains("cacheA"), true);
    assert_eq!(consistant.contains("cacheB"), false);
    assert_eq!(consistant.contains("CachEa"), false);
}

#[test]
fn test_get() {
    let mut consistant = Consistant::default();
    consistant.add("cacheA");
    consistant.add("cacheB");
    consistant.add("cacheC");

    assert_eq!(consistant.get("david").unwrap(), consistant.get("david").unwrap());
    assert_eq!(consistant.get("kally").unwrap(), consistant.get("kally").unwrap());
    assert_eq!(consistant.get("jason").unwrap(), consistant.get("jason").unwrap());
}

#[test]
fn test_get_n() {
    let mut consistant = Consistant::default();
    consistant.add("cacheA");
    consistant.add("cacheB");
    consistant.add("cacheC");

    let res = consistant.get_n("david", 3).unwrap();
    assert_eq!(res.len(), 3);

    consistant.remove("cacheA");

    let res2 = consistant.get_n("david", 3).unwrap();
    assert_eq!(res2.len(), 2);
}

#[test]
fn test_remove() {
    let mut consistant = Consistant::default();
    consistant.add("cacheA");
    consistant.add("cacheB");
    consistant.add("cacheC");

    consistant.remove("cacheC");
    assert_eq!(consistant.count(), 2);

    assert!(consistant.get("david").unwrap() != String::from("cacheC"));
    assert!(consistant.get("kally").unwrap() != String::from("cacheC"));
    assert!(consistant.get("jason").unwrap() != String::from("cacheC"));
}

#[test]
fn add_is_idempotent() {
    let mut ring = Consistant::default();
    ring.add("cacheA");
    ring.add("cacheB");
    let points_once = ring.point_count();
    let owner_once = ring.get("key-1").unwrap();

    ring.add("cacheA");

    assert_eq!(ring.count(), 2);
    assert_eq!(ring.point_count(), points_once);
    assert_eq!(ring.get("key-1").unwrap(), owner_once);
}

#[test]
fn remove_undoes_add() {
    let mut ring = Consistant::new(11);
    ring.add("cacheA");
    ring.add("cacheB");
    let points_before = ring.point_count();
    let owner_before = ring.get("some-key").unwrap();
    let fallbacks_before = ring.get_n("some-key", 2).unwrap();

    ring.add("cacheC");
    ring.remove("cacheC");

    assert_eq!(ring.count(), 2);
    assert_eq!(ring.point_count(), points_before);
    assert!(!ring.contains("cacheC"));
    assert_eq!(ring.get("some-key").unwrap(), owner_before);
    assert_eq!(ring.get_n("some-key", 2).unwrap(), fallbacks_before);
}

#[test]
fn get_is_deterministic() {
    let mut ring = Consistant::new(7);
    ring.add("alpha");
    ring.add("beta");
    ring.add("gamma");

    for key in ["", "a", "some longer key", "zz-99"] {
        assert_eq!(ring.get(key), ring.get(key));
        assert_eq!(ring.get_n(key, 2), ring.get_n(key, 2));
    }
}

#[test]
fn get_n_is_capped_at_member_count() {
    let mut ring = Consistant::default();
    ring.add("cacheA");
    ring.add("cacheB");
    ring.add("cacheC");

    let res = ring.get_n("david", 10).unwrap();
    assert_eq!(res.len(), 3);
}

#[test]
fn get_n_lists_each_member_once_in_ring_order() {
    let mut ring = Consistant::default();
    ring.add("cacheA");
    ring.add("cacheB");
    ring.add("cacheC");

    let res = ring.get_n("david", 3).unwrap();
    assert_eq!(res.len(), 3);
    assert_eq!(res[0], ring.get("david").unwrap());
    assert!(res.contains(&String::from("cacheA")));
    assert!(res.contains(&String::from("cacheB")));
    assert!(res.contains(&String::from("cacheC")));
    assert!(res[0] != res[1] && res[1] != res[2] && res[0] != res[2]);
}

#[test]
fn count_and_contains_track_membership() {
    let mut ring = Consistant::default();
    ring.add("cacheA");
    ring.add("cacheB");
    ring.remove("cacheA");

    assert_eq!(ring.count(), 1);
    assert!(!ring.contains("cacheA"));
    assert!(ring.contains("cacheB"));
}

#[test]
fn point_count_scales_with_members_and_replicas() {
    let mut ring = Consistant::new(7);
    ring.add("n1");
    ring.add("n2");
    ring.add("n3");
    ring.add("n4");
    assert_eq!(ring.point_count(), 4 * 7);

    ring.remove("n2");
    assert_eq!(ring.point_count(), 3 * 7);
}

#[test]
fn empty_ring_answers_nothing() {
    let ring = Consistant::default();

    assert_eq!(ring.get("anything"), None);
    assert_eq!(ring.get_n("anything", 3), None);
    assert_eq!(ring.count(), 0);
}

#[test]
fn get_n_of_zero_is_nothing() {
    let mut ring = Consistant::default();
    ring.add("cacheA");

    assert_eq!(ring.get_n("anything", 0), None);
}

#[test]
fn removing_a_stranger_changes_nothing() {
    let mut ring = Consistant::default();
    ring.add("cacheA");
    let points = ring.point_count();

    ring.remove("cacheB");

    assert_eq!(ring.count(), 1);
    assert_eq!(ring.point_count(), points);
    assert!(ring.contains("cacheA"));
}

#[test]
fn element_names_append_the_decimal_index() {
    assert_eq!(Consistant::generate_element_name("node", 0), "node0");
    assert_eq!(Consistant::generate_element_name("node", 7), "node7");
    assert_eq!(Consistant::generate_element_name("node", 13), "node13");
    assert_eq!(Consistant::generate_element_name("", 205), "205");
}
