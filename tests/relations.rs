use relational_types::{Error, IdxSet, ManyToMany, OneToMany, Relation};
use std::collections::{BTreeMap, BTreeSet};
use typed_index_collection::{CollectionWithId, Id};

struct Brand {
    id: String,
}

impl Id<Brand> for Brand {
    fn id(&self) -> &str {
        self.id.as_str()
    }
    fn set_id(&mut self, id: String) {
        self.id = id;
    }
}

fn set(items: &[usize]) -> IdxSet {
    items.iter().copied().collect()
}

fn brands(ids: &[&str]) -> CollectionWithId<Brand> {
    CollectionWithId::new(ids.iter().map(|id| Brand { id: id.to_string() }).collect()).unwrap()
}

#[test]
fn new_links_each_target_to_its_source() {
    let one = brands(&["biky", "biclou"]);
    let many = vec![(0, "biky".to_string()), (1, "biclou".to_string()), (2, "biky".to_string())];
    let rel = OneToMany::new(&one, &many, "brands_to_bikes").unwrap();
    assert_eq!(rel.get_corresponding_forward(&set(&[0])), set(&[0, 2]));
    assert_eq!(rel.get_corresponding_forward(&set(&[1])), set(&[1]));
    assert_eq!(rel.get_corresponding_backward(&set(&[2])), set(&[0]));
    assert_eq!(rel.get_from(), set(&[0, 1]));
    assert_eq!(rel.get_to(), set(&[0, 1, 2]));
}

#[test]
fn new_reports_missing_identifier() {
    let one = brands(&["biky"]);
    let many = vec![(0, "biky".to_string()), (1, "nobrand".to_string()), (2, "other".to_string())];
    let err = OneToMany::new(&one, &many, "brands_to_bikes").err().unwrap();
    assert_eq!(
        err,
        Error::IdentifierNotFound("nobrand".to_string(), "brands_to_bikes".to_string())
    );
}

#[test]
fn from_resolved_takes_the_given_sources() {
    let many = vec![(5, "a".to_string()), (7, "b".to_string())];
    let rel = OneToMany::from_resolved(&many, &vec![Some(3), Some(3)], "r").unwrap();
    assert_eq!(rel.get_corresponding_forward(&set(&[3])), set(&[5, 7]));
    let err = OneToMany::from_resolved(&many, &vec![Some(3), None], "r").err().unwrap();
    assert_eq!(err, Error::IdentifierNotFound("b".to_string(), "r".to_string()));
}

#[test]
fn empty_target_collection_gives_empty_lookups() {
    let one = brands(&["biky", "biclou"]);
    let many: Vec<(usize, String)> = Vec::new();
    let rel = OneToMany::new(&one, &many, "brands_to_bikes").unwrap();
    assert!(rel.get_corresponding_forward(&set(&[0])).is_empty());
    assert!(rel.get_corresponding_forward(&set(&[0, 1, 9])).is_empty());
    assert!(rel.get_corresponding_forward(&set(&[])).is_empty());
    assert!(rel.get_to().is_empty());
}

#[test]
fn add_link_walkthrough() {
    let mut brand_list = brands(&["biky"]);
    let biky = 0;
    let loulou = 0;
    let many = vec![(loulou, "biky".to_string())];
    let mut relation = OneToMany::new(&brand_list, &many, "brands_to_bikes").unwrap();

    let fifi = 1;
    relation.add_link(biky, fifi);
    assert_eq!(relation.get_corresponding_forward(&set(&[biky])), set(&[loulou, fifi]));
    assert_eq!(relation.get_corresponding_backward(&set(&[fifi])), set(&[biky]));

    let biclou = brand_list.push(Brand { id: "biclou".to_string() }).unwrap().get();
    let riri = 2;
    relation.add_link(biclou, riri);
    assert_eq!(relation.get_corresponding_forward(&set(&[biclou])), set(&[riri]));
    assert_eq!(relation.get_corresponding_backward(&set(&[riri])), set(&[biclou]));

    relation.add_link(biclou, fifi);
    assert_eq!(relation.get_corresponding_forward(&set(&[biclou])), set(&[fifi, riri]));
    assert_eq!(relation.get_corresponding_backward(&set(&[fifi])), set(&[biclou]));
    assert_eq!(relation.get_corresponding_forward(&set(&[biky])), set(&[loulou]));
    assert_eq!(relation.get_corresponding_backward(&set(&[loulou])), set(&[biky]));
}

#[test]
fn add_link_keeps_a_single_owner() {
    let mut rel = OneToMany::empty();
    rel.add_link(1, 10);
    rel.add_link(2, 10);
    rel.add_link(3, 10);
    assert!(rel.get_corresponding_forward(&set(&[1])).is_empty());
    assert!(rel.get_corresponding_forward(&set(&[2])).is_empty());
    assert_eq!(rel.get_corresponding_forward(&set(&[1, 2, 3])), set(&[10]));
    assert_eq!(rel.get_corresponding_backward(&set(&[10])), set(&[3]));
    assert_eq!(rel.get_from(), set(&[1, 2, 3]));
    rel.add_link(3, 10);
    assert_eq!(rel.get_corresponding_backward(&set(&[10])), set(&[3]));
}

#[test]
fn lookups_ignore_unknown_indices() {
    let mut rel = OneToMany::empty();
    rel.add_link(1, 10);
    assert!(rel.get_corresponding_forward(&set(&[7])).is_empty());
    assert!(rel.get_corresponding_backward(&set(&[70])).is_empty());
    assert_eq!(rel.get_corresponding_backward(&set(&[10, 70])), set(&[1]));
}

fn forward_map(pairs: &[(usize, &[usize])]) -> BTreeMap<usize, IdxSet> {
    pairs.iter().map(|(k, v)| (*k, set(v))).collect()
}

#[test]
fn from_forward_builds_the_transpose() {
    let rel = ManyToMany::from_forward(forward_map(&[(1, &[10, 11]), (2, &[11]), (3, &[])]));
    assert_eq!(rel.get_from(), set(&[1, 2, 3]));
    assert_eq!(rel.get_to(), set(&[10, 11]));
    assert_eq!(rel.get_corresponding_backward(&set(&[11])), set(&[1, 2]));
    assert_eq!(rel.get_corresponding_backward(&set(&[10])), set(&[1]));
    assert_eq!(rel.get_corresponding_forward(&set(&[2, 3])), set(&[11]));
    for from in [1, 2, 3] {
        for to in [10, 11] {
            let forward = rel.get_corresponding_forward(&set(&[from])).contains(&to);
            let backward = rel.get_corresponding_backward(&set(&[to])).contains(&from);
            assert_eq!(forward, backward);
        }
    }
}

fn one_to_many(links: &[(usize, usize)]) -> OneToMany {
    let mut rel = OneToMany::empty();
    for (from, to) in links {
        rel.add_link(*from, *to);
    }
    rel
}

#[test]
fn chain_composes_forward_lookups() {
    let r1 = one_to_many(&[(0, 10), (0, 11), (1, 12)]);
    let r2 = one_to_many(&[(10, 100), (11, 101), (12, 102), (12, 103)]);
    let chained = ManyToMany::from_relations_chain(&r1, &r2);
    assert_eq!(chained.get_corresponding_forward(&set(&[0])), set(&[100, 101]));
    assert_eq!(chained.get_corresponding_forward(&set(&[1])), set(&[102, 103]));
    assert_eq!(chained.get_corresponding_backward(&set(&[103])), set(&[1]));
    let s = set(&[0, 1]);
    assert_eq!(
        chained.get_corresponding_forward(&s),
        r2.get_corresponding_forward(&r1.get_corresponding_forward(&s))
    );
}

#[test]
fn sink_joins_on_shared_targets() {
    let brands_to_bikes = one_to_many(&[(0, 10), (0, 11), (1, 12)]);
    let kinds_to_bikes = one_to_many(&[(5, 10), (6, 11), (6, 12)]);
    let brands_to_kinds = ManyToMany::from_relations_sink(&brands_to_bikes, &kinds_to_bikes);
    assert_eq!(brands_to_kinds.get_corresponding_forward(&set(&[0])), set(&[5, 6]));
    assert_eq!(brands_to_kinds.get_corresponding_forward(&set(&[1])), set(&[6]));
    assert_eq!(brands_to_kinds.get_corresponding_backward(&set(&[5])), set(&[0]));
    let s = set(&[1]);
    assert_eq!(
        brands_to_kinds.get_corresponding_forward(&s),
        kinds_to_bikes.get_corresponding_backward(&brands_to_bikes.get_corresponding_forward(&s))
    );
}

#[test]
fn source_joins_on_shared_sources() {
    let owners_to_bikes = one_to_many(&[(0, 10), (0, 11), (1, 12)]);
    let owners_to_jobs = one_to_many(&[(0, 20), (1, 21)]);
    let bikes_to_jobs = ManyToMany::from_relations_source(&owners_to_bikes, &owners_to_jobs);
    assert_eq!(bikes_to_jobs.get_from(), set(&[10, 11, 12]));
    assert_eq!(bikes_to_jobs.get_corresponding_forward(&set(&[10])), set(&[20]));
    assert_eq!(bikes_to_jobs.get_corresponding_forward(&set(&[12])), set(&[21]));
    let s = set(&[11, 12]);
    assert_eq!(
        bikes_to_jobs.get_corresponding_forward(&s),
        owners_to_jobs.get_corresponding_forward(&owners_to_bikes.get_corresponding_backward(&s))
    );
}

#[test]
fn one_to_many_directions_agree() {
    let rel = one_to_many(&[(0, 10), (0, 11), (1, 12), (1, 10)]);
    for to in [10, 11, 12] {
        let owner = rel.get_corresponding_backward(&set(&[to]));
        assert_eq!(owner.len(), 1);
        let from = *owner.iter().next().unwrap();
        assert!(rel.get_corresponding_forward(&set(&[from])).contains(&to));
    }
    assert_eq!(rel.get_corresponding_forward(&set(&[0])), set(&[11]));
    assert_eq!(rel.get_corresponding_forward(&set(&[1])), set(&[10, 12]));
    let mut expected = BTreeSet::new();
    expected.insert(1);
    assert_eq!(rel.get_corresponding_backward(&set(&[10])), expected);
}

#[test]
fn default_relations_are_empty() {
    let one: OneToMany = Default::default();
    assert!(one.get_from().is_empty());
    assert!(one.get_to().is_empty());
    let many: ManyToMany = Default::default();
    assert!(many.get_from().is_empty());
    assert!(many.get_corresponding_backward(&set(&[1])).is_empty());
}
