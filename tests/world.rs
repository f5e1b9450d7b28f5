use raven_ecs::world::World;
use raven_ecs::Entity;

const X: u64 = 1;
const Y: u64 = 2;

#[derive(Clone, PartialEq, Debug)]
enum Comp {
    X(String),
    Y(String),
}

fn comp_x(s: &str) -> Comp {
    Comp::X(s.to_string())
}

fn comp_y(s: &str) -> Comp {
    Comp::Y(s.to_string())
}

fn lowercase(c: &mut Comp) {
    match c {
        Comp::X(f) | Comp::Y(f) => *f = f.to_ascii_lowercase(),
    }
}

#[test]
fn create_entity() {
    let mut w: World<Comp> = World::default();

    assert_eq!(w.create(), Entity { id: 0, version: 0 });
    assert_eq!(w.create(), Entity { id: 1, version: 0 });
}

#[test]
fn recycle() {
    let mut w: World<Comp> = World::default();

    let e = w.create();
    w.destroy(e);
    assert_eq!(w.create(), Entity { id: 0, version: 1 });
}

#[test]
fn attach() {
    let mut w: World<Comp> = World::default();

    let e = w.create();
    w.attach(e, X, comp_x("A"));

    assert_eq!(w.get_one(e, X), Some(&comp_x("A")));
}

#[test]
fn different_components() {
    let mut w: World<Comp> = World::default();

    let e = w.create();
    w.attach(e, X, comp_x("A"));
    w.attach(e, Y, comp_y("B"));

    assert_eq!(w.get_one(e, X), Some(&comp_x("A")));
    assert_eq!(w.get_one(e, Y), Some(&comp_y("B")));
}

#[test]
fn detach_one() {
    let mut w: World<Comp> = World::default();

    let e = w.create();
    w.attach(e, X, comp_x("A"));
    w.attach(e, X, comp_x("B"));
    w.detach_one(e, X);

    assert_eq!(w.get_all(e, X).iter().collect::<Vec<_>>(), vec![&comp_x("B")]);
}

#[test]
fn detach_all() {
    let mut w: World<Comp> = World::default();

    let e = w.create();
    w.attach(e, X, comp_x("A"));
    w.attach(e, X, comp_x("B"));
    w.detach_all(e, X);

    assert_eq!(w.get_all(e, X).iter().collect::<Vec<_>>(), Vec::<&Comp>::new());
}

#[test]
fn destroy_clears_components() {
    let mut w: World<Comp> = World::default();

    let e = w.create();
    w.attach(e, X, comp_x("A"));
    w.destroy(e);

    assert_eq!(w.get_one(e, X), None);
}

#[test]
fn recycled_is_fresh() {
    let mut w: World<Comp> = World::default();

    let e1 = w.create();
    w.attach(e1, X, comp_x("A"));
    w.destroy(e1);

    let e2 = w.create();

    assert_eq!(w.get_one(e2, X), None);
}

#[test]
fn longer_destroyed_list() {
    let mut w: World<Comp> = World::default();

    let entities: Vec<_> = (0..10).map(|_| w.create()).collect();

    for entity in entities {
        w.destroy(entity);
    }

    assert_eq!(w.create(), Entity { id: 9, version: 1 });
    assert_eq!(w.create(), Entity { id: 8, version: 1 });
}

#[test]
fn mutability() {
    let mut w: World<Comp> = World::default();

    let e = w.create();
    w.attach(e, X, comp_x("A"));

    {
        let comp = w.get_one_mut(e, X).unwrap();
        lowercase(comp);
    }

    assert_eq!(w.get_one(e, X), Some(&comp_x("a")));
}

#[test]
fn mod_get_all() {
    let mut w: World<Comp> = World::default();

    let e = w.create();
    w.attach(e, X, comp_x("A"));
    w.attach(e, X, comp_x("B"));
    w.attach(e, X, comp_x("C"));

    assert_eq!(
        w.get_all(e, X).iter().collect::<Vec<_>>(),
        vec![&comp_x("A"), &comp_x("B"), &comp_x("C")]
    );
}

#[test]
fn mod_get_all_mut() {
    let mut w: World<Comp> = World::default();

    let e = w.create();
    w.attach(e, X, comp_x("A"));
    w.attach(e, X, comp_x("B"));
    w.attach(e, X, comp_x("C"));

    for n in 0..w.count(e, X) {
        lowercase(w.get_nth_mut(e, X, n).unwrap());
    }

    assert_eq!(
        w.get_all(e, X).iter().collect::<Vec<_>>(),
        vec![&comp_x("a"), &comp_x("b"), &comp_x("c")]
    );
}

#[test]
fn entities() {
    let mut w: World<Comp> = World::default();

    let e1 = w.create();
    let e2 = w.create();
    let e3 = w.create();
    let e4 = w.create();

    w.destroy(e3);

    assert_eq!(w.entities(), vec![e1, e2, e4]);
}

#[test]
fn stale_handles_do_nothing() {
    let mut w: World<Comp> = World::default();

    let e = w.create();
    w.destroy(e);
    let e2 = w.create();
    assert_eq!(e2, Entity { id: 0, version: 1 });

    w.attach(e, X, comp_x("A"));
    assert_eq!(w.get_one(e2, X), None);
    assert_eq!(w.detach_one(e, X), None);
    assert_eq!(w.detach_all(e, X), Vec::<Comp>::new());
    assert!(!w.entity_exists(e));
    assert!(w.entity_exists(e2));

    w.destroy(e);
    assert_eq!(w.entities(), vec![e2]);
    w.destroy(e2);
    w.destroy(e2);
    assert_eq!(w.entities(), Vec::<Entity>::new());
    assert_eq!(w.create(), Entity { id: 0, version: 2 });
}

#[test]
fn destroy_clears_every_instance_of_every_kind() {
    let mut w: World<Comp> = World::default();

    let e = w.create();
    let other = w.create();
    w.attach(e, X, comp_x("A"));
    w.attach(e, X, comp_x("B"));
    w.attach(e, Y, comp_y("C"));
    w.attach(other, X, comp_x("D"));
    w.destroy(e);

    assert_eq!(w.get_all(e, X).len(), 0);
    assert_eq!(w.get_one(e, Y), None);
    assert_eq!(w.holder_ids(X), Some(vec![1]));
    assert_eq!(w.holder_ids(Y), Some(vec![]));
    assert_eq!(w.get_one(other, X), Some(&comp_x("D")));

    let again = w.create();
    assert_eq!(again, Entity { id: e.id, version: e.version + 1 });
    assert_eq!(w.count(again, X), 0);
    assert_eq!(w.count(again, Y), 0);
}

#[test]
fn attach_then_get_one_and_detach() {
    let mut w: World<Comp> = World::default();

    let e = w.create();
    assert_eq!(w.holder_ids(Y), None);
    w.attach(e, Y, comp_y("only"));
    assert_eq!(w.get_one(e, Y), Some(&comp_y("only")));
    assert_eq!(w.get_nth(e, Y, 1), None);
    assert_eq!(w.detach_one(e, Y), Some(comp_y("only")));
    assert_eq!(w.get_one(e, Y), None);
    assert_eq!(w.kinds(), vec![Y]);
    assert_eq!(w.entity_at(0), Some(e));
    assert_eq!(w.entity_at(1), None);
}
