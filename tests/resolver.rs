use relational_types::{
    parse_weight, AnyRelation, Error, IdxSet, ManyToMany, OneToMany, RelationDecl, Resolver,
    Step, DEFAULT_WEIGHT,
};
use typed_index_collection::{CollectionWithId, Id};

struct Animal {
    id: String,
}

impl Id<Animal> for Animal {
    fn id(&self) -> &str {
        self.id.as_str()
    }
    fn set_id(&mut self, id: String) {
        self.id = id;
    }
}

struct Feline {
    id: String,
    animal_id: String,
}

impl Id<Feline> for Feline {
    fn id(&self) -> &str {
        self.id.as_str()
    }
    fn set_id(&mut self, id: String) {
        self.id = id;
    }
}

struct Cat {
    id: String,
    feline_id: String,
}

impl Id<Cat> for Cat {
    fn id(&self) -> &str {
        self.id.as_str()
    }
    fn set_id(&mut self, id: String) {
        self.id = id;
    }
}

const ANIMAL: usize = 0;
const FELINE: usize = 1;
const CAT: usize = 2;

fn set(items: &[usize]) -> IdxSet {
    items.iter().copied().collect()
}

fn decl(name: &str, source: usize, target: usize, weight: Option<&str>) -> RelationDecl {
    RelationDecl {
        name: name.to_string(),
        source,
        target,
        weight: weight.map(|w| w.to_string()),
    }
}

fn felines_of(felines: &CollectionWithId<Feline>) -> Vec<(usize, String)> {
    felines.iter().map(|(idx, f)| (idx.get(), f.animal_id.clone())).collect()
}

fn cats_of(cats: &CollectionWithId<Cat>) -> Vec<(usize, String)> {
    cats.iter().map(|(idx, c)| (idx.get(), c.feline_id.clone())).collect()
}

fn feline(id: &str, animal_id: &str) -> Feline {
    Feline { id: id.to_string(), animal_id: animal_id.to_string() }
}

fn cat(id: &str, feline_id: &str) -> Cat {
    Cat { id: id.to_string(), feline_id: feline_id.to_string() }
}

#[test]
fn animals_felines_cats_end_to_end() {
    let animals = CollectionWithId::from(Animal { id: "animal_id".to_string() });
    let felines = CollectionWithId::new(vec![
        feline("feline_id_1", "animal_id"),
        feline("feline_id_2", "animal_id"),
    ])
    .unwrap();
    let cats = CollectionWithId::new(vec![
        cat("cat_id_1", "feline_id_1"),
        cat("cat_id_2", "feline_id_1"),
        cat("cat_id_3", "feline_id_2"),
        cat("cat_id_4", "feline_id_2"),
    ])
    .unwrap();
    let relations = vec![
        AnyRelation::OneToMany(
            OneToMany::new(&animals, &felines_of(&felines), "animals_to_felines").unwrap(),
        ),
        AnyRelation::OneToMany(
            OneToMany::new(&felines, &cats_of(&cats), "felines_to_cats").unwrap(),
        ),
    ];
    let decls = vec![
        decl("animals_to_felines", ANIMAL, FELINE, None),
        decl("felines_to_cats", FELINE, CAT, None),
    ];
    let resolver = Resolver::new(&decls).unwrap();

    let animal_idx = animals.get_idx("animal_id").unwrap().get();
    let feline_indexes = resolver
        .get_corresponding(&relations, ANIMAL, FELINE, &set(&[animal_idx]))
        .unwrap();
    assert_eq!(2, feline_indexes.len());
    let cat_indexes = resolver
        .get_corresponding(&relations, FELINE, CAT, &feline_indexes)
        .unwrap();
    let all_cats: Vec<usize> = ["cat_id_1", "cat_id_2", "cat_id_3", "cat_id_4"]
        .iter()
        .map(|id| cats.get_idx(id).unwrap().get())
        .collect();
    assert_eq!(cat_indexes, set(&all_cats));
    let direct = resolver
        .get_corresponding(&relations, ANIMAL, CAT, &set(&[animal_idx]))
        .unwrap();
    assert_eq!(direct, set(&all_cats));
    for cat_idx in all_cats {
        let back = resolver
            .get_corresponding(&relations, CAT, ANIMAL, &set(&[cat_idx]))
            .unwrap();
        assert_eq!(back, set(&[animal_idx]));
    }
}

#[test]
fn empty_cat_collection_gives_no_cats() {
    let animals = CollectionWithId::from(Animal { id: "animal_id".to_string() });
    let felines = CollectionWithId::from(feline("feline_id", "animal_id"));
    let cats = CollectionWithId::<Cat>::default();
    let relations = vec![
        AnyRelation::OneToMany(
            OneToMany::new(&animals, &felines_of(&felines), "animals_to_felines").unwrap(),
        ),
        AnyRelation::OneToMany(
            OneToMany::new(&felines, &cats_of(&cats), "felines_to_cats").unwrap(),
        ),
    ];
    let decls = vec![
        decl("animals_to_felines", ANIMAL, FELINE, None),
        decl("felines_to_cats", FELINE, CAT, None),
    ];
    let resolver = Resolver::new(&decls).unwrap();
    let animal_idx = animals.get_idx("animal_id").unwrap().get();
    let cat_indexes = resolver
        .get_corresponding(&relations, ANIMAL, CAT, &set(&[animal_idx]))
        .unwrap();
    assert_eq!(0, cat_indexes.len());
}

#[test]
fn invalid_weight_is_rejected() {
    let decls = vec![
        decl("animals_to_felines", ANIMAL, FELINE, Some("abc")),
        decl("felines_to_cats", FELINE, CAT, Some("")),
    ];
    let err = Resolver::new(&decls).err().unwrap();
    assert_eq!(
        err,
        Error::InvalidWeight("abc".to_string(), "animals_to_felines".to_string())
    );
}

#[test]
fn zero_or_negative_weight_is_rejected() {
    for text in ["0", "0.000", "-1", "1.", ".5", "1.2345", "1e3", "1.9.1", " 1"] {
        let decls = vec![decl("r", ANIMAL, FELINE, Some(text))];
        let err = Resolver::new(&decls).err().unwrap();
        assert_eq!(err, Error::InvalidWeight(text.to_string(), "r".to_string()));
    }
}

#[test]
fn weight_texts_are_read_in_thousandths() {
    assert_eq!(parse_weight("1.9"), Some(1900));
    assert_eq!(parse_weight("2"), Some(2000));
    assert_eq!(parse_weight("0.001"), Some(1));
    assert_eq!(parse_weight("12.25"), Some(12250));
    assert_eq!(parse_weight("1000000000"), Some(1_000_000_000_000));
    assert_eq!(parse_weight("1000000001"), None);
    assert_eq!(parse_weight("abc"), None);
    assert_eq!(parse_weight("0"), None);
    assert_eq!(parse_weight(""), None);
    assert_eq!(DEFAULT_WEIGHT, 1000);
}

const BRAND: usize = 10;
const BIKE: usize = 11;
const OWNER: usize = 12;
const JOB: usize = 13;
const KIND: usize = 14;

fn bikes_world(shortcut_weight: Option<&str>) -> Vec<RelationDecl> {
    vec![
        decl("brands_to_bikes", BRAND, BIKE, None),
        decl("owners_to_bikes", OWNER, BIKE, None),
        decl("jobs_to_owners", JOB, OWNER, None),
        decl("kinds_to_bikes", KIND, BIKE, None),
        decl("brands_to_kinds", BRAND, KIND, shortcut_weight),
        decl("kinds_to_owners", KIND, OWNER, shortcut_weight),
    ]
}

fn path_weight(decls: &[RelationDecl], path: &[Step]) -> u64 {
    path.iter()
        .map(|st| match &decls[st.edge].weight {
            Some(w) => parse_weight(w).unwrap(),
            None => DEFAULT_WEIGHT,
        })
        .sum()
}

#[test]
fn weighted_shortcuts_are_avoided() {
    let decls = bikes_world(Some("1.9"));
    let resolver = Resolver::new(&decls).unwrap();
    let path = resolver.path(OWNER, BRAND).unwrap();
    assert_eq!(
        path,
        vec![Step { edge: 1, forward: true }, Step { edge: 0, forward: false }]
    );
    assert_eq!(path_weight(&decls, &path), 2000);
    let back = resolver.path(BRAND, OWNER).unwrap();
    assert_eq!(
        back,
        vec![Step { edge: 0, forward: true }, Step { edge: 1, forward: false }]
    );
    let shortcut = resolver.path(BRAND, KIND).unwrap();
    assert_eq!(shortcut, vec![Step { edge: 4, forward: true }]);
}

#[test]
fn heavier_path_loses_even_when_declared_first() {
    let decls = vec![
        decl("a_to_b", 0, 1, Some("5")),
        decl("b_to_d", 1, 3, Some("5")),
        decl("a_to_c", 0, 2, Some("1")),
        decl("c_to_d", 2, 3, Some("1")),
    ];
    let resolver = Resolver::new(&decls).unwrap();
    let path = resolver.path(0, 3).unwrap();
    assert_eq!(
        path,
        vec![Step { edge: 2, forward: true }, Step { edge: 3, forward: true }]
    );
    assert_eq!(path_weight(&decls, &path), 2000);
}

#[test]
fn every_connected_pair_gets_a_path() {
    let decls = bikes_world(None);
    let resolver = Resolver::new(&decls).unwrap();
    let types = [BRAND, BIKE, OWNER, JOB, KIND];
    for from in types {
        for to in types {
            let path = resolver.path(from, to);
            if from == to {
                assert!(path.is_none());
            } else {
                assert!(!path.unwrap().is_empty());
            }
        }
    }
}

#[test]
fn disconnected_or_unknown_types_get_no_path() {
    let decls = vec![decl("a_to_b", 0, 1, None), decl("c_to_d", 2, 3, None)];
    let resolver = Resolver::new(&decls).unwrap();
    assert!(resolver.path(0, 1).is_some());
    assert!(resolver.path(0, 2).is_none());
    assert!(resolver.path(3, 1).is_none());
    assert!(resolver.path(0, 9).is_none());
    let relations: Vec<AnyRelation> = vec![
        AnyRelation::ManyToMany(ManyToMany::from_forward(Default::default())),
        AnyRelation::OneToMany(OneToMany::empty()),
    ];
    assert!(resolver.get_corresponding(&relations, 0, 2, &set(&[1])).is_none());
}

#[test]
fn composed_lookup_reflects_new_links() {
    let decls = vec![decl("a_to_b", 0, 1, None), decl("b_to_c", 1, 2, None)];
    let resolver = Resolver::new(&decls).unwrap();
    let mut a_to_b = OneToMany::empty();
    a_to_b.add_link(1, 10);
    let mut b_to_c = OneToMany::empty();
    b_to_c.add_link(10, 100);
    b_to_c.add_link(11, 101);
    let relations = vec![AnyRelation::OneToMany(a_to_b), AnyRelation::OneToMany(b_to_c)];
    assert_eq!(resolver.get_corresponding(&relations, 0, 2, &set(&[1])), Some(set(&[100])));
    let mut relations = relations;
    if let AnyRelation::OneToMany(r) = &mut relations[0] {
        r.add_link(1, 11);
    }
    assert_eq!(
        resolver.get_corresponding(&relations, 0, 2, &set(&[1])),
        Some(set(&[100, 101]))
    );
    assert_eq!(resolver.get_corresponding(&relations, 2, 0, &set(&[101])), Some(set(&[1])));
}

#[test]
fn single_index_lookup_follows_the_path() {
    let decls = vec![decl("a_to_b", 0, 1, None), decl("b_to_c", 1, 2, None)];
    let resolver = Resolver::new(&decls).unwrap();
    let mut a_to_b = OneToMany::default();
    a_to_b.add_link(1, 10);
    a_to_b.add_link(1, 11);
    a_to_b.add_link(2, 12);
    let mut b_to_c = OneToMany::default();
    b_to_c.add_link(10, 100);
    b_to_c.add_link(11, 101);
    b_to_c.add_link(12, 102);
    let relations = vec![AnyRelation::OneToMany(a_to_b), AnyRelation::OneToMany(b_to_c)];
    assert_eq!(
        resolver.get_corresponding_from_idx(&relations, 0, 2, 1),
        Some(set(&[100, 101]))
    );
    assert_eq!(resolver.get_corresponding_from_idx(&relations, 2, 0, 100), Some(set(&[1])));
    assert_eq!(resolver.get_corresponding_from_idx(&relations, 2, 0, 102), Some(set(&[2])));
    assert_eq!(resolver.get_corresponding_from_idx(&relations, 0, 0, 1), None);
}
