use raven_ecs::record::{DecodeError, EntityRecord};
use raven_ecs::world::World;
use raven_ecs::Entity;

const X: u64 = 1;
const Y: u64 = 2;

#[derive(Clone, PartialEq, Debug)]
enum Comp {
    X(String),
    Y(String),
}

fn comp_x(s: &str) -> Comp {
    Comp::X(s.to_string())
}

fn comp_y(s: &str) -> Comp {
    Comp::Y(s.to_string())
}

/// The record form of `w`, with the instances copied out of it.
fn owned_records(w: &World<Comp>) -> Vec<EntityRecord<Comp>> {
    w.encode()
        .into_iter()
        .map(|r| EntityRecord {
            id: r.id,
            version: r.version,
            components: r.components.into_iter().map(|(k, c)| (k, c.clone())).collect(),
        })
        .collect()
}

#[test]
fn serde() {
    let mut original: World<Comp> = World::default();

    let e1 = original.create();
    let e2 = original.create();
    let e3 = original.create();
    let _e4 = original.create();

    original.destroy(e3);

    let e3 = original.create();

    original.attach(e1, X, comp_x("A"));
    original.attach(e1, X, comp_x("B"));
    original.attach(e1, Y, comp_y("C"));

    original.attach(e2, X, comp_x("D"));
    original.attach(e2, Y, comp_y("E"));
    original.attach(e2, Y, comp_y("F"));

    original.attach(e3, Y, comp_y("G"));
    original.attach(e3, Y, comp_y("H"));

    let serialized = owned_records(&original);

    let deserialized = World::decode(serialized).unwrap();

    assert_eq!(original.entities(), deserialized.entities());

    for entity in original.entities() {
        assert_eq!(original.get_all(entity, X), deserialized.get_all(entity, X));
        assert_eq!(original.get_all(entity, Y), deserialized.get_all(entity, Y));
    }
}

#[test]
fn encode_lists_live_entities_pool_by_pool() {
    let mut w: World<Comp> = World::default();

    let a = w.create();
    let b = w.create();
    let c = w.create();
    w.attach(b, Y, comp_y("y0"));
    w.attach(a, X, comp_x("x0"));
    w.attach(b, X, comp_x("x1"));
    w.attach(b, Y, comp_y("y1"));
    w.destroy(c);

    let records = w.encode();
    assert_eq!(records.len(), 2);
    assert_eq!((records[0].id, records[0].version), (0, 0));
    assert_eq!(records[0].components, vec![(X, &comp_x("x0"))]);
    assert_eq!((records[1].id, records[1].version), (1, 0));
    // The pool for Y was made first.
    assert_eq!(
        records[1].components,
        vec![(Y, &comp_y("y0")), (Y, &comp_y("y1")), (X, &comp_x("x1"))]
    );
}

#[test]
fn decode_rebuilds_gaps_and_free_list() {
    let mut w: World<Comp> = World::default();
    let e = w.create();
    let gap = w.create();
    let far = w.create();
    w.attach(far, X, comp_x("far"));
    w.destroy(gap);
    w.destroy(far);
    let far = w.create();
    assert_eq!(far, Entity { id: 2, version: 1 });
    w.attach(far, X, comp_x("again"));

    let mut d = World::decode(owned_records(&w)).unwrap();
    assert_eq!(d.entities(), vec![e, far]);
    assert_eq!(d.get_all(far, X).to_vec(), vec![comp_x("again")]);
    assert_eq!(d.get_all(e, X).len(), 0);
    // The gap was opened destroyed at version 0 and is reused first.
    assert_eq!(d.create(), Entity { id: 1, version: 0 });
    assert_eq!(d.create(), Entity { id: 3, version: 0 });
}

#[test]
fn decode_refuses_unordered_ids() {
    let rec = |id: usize| EntityRecord { id, version: 0, components: vec![(X, comp_x("v"))] };

    assert_eq!(World::decode(vec![rec(3), rec(1)]).err(), Some(DecodeError { record: 1 }));
    assert_eq!(World::decode(vec![rec(0), rec(2), rec(2)]).err(), Some(DecodeError { record: 2 }));
    assert_eq!(World::decode(vec![rec(usize::MAX)]).err(), Some(DecodeError { record: 0 }));

    let empty: Vec<EntityRecord<Comp>> = Vec::new();
    let mut w = World::decode(empty).unwrap();
    assert_eq!(w.entities(), Vec::<Entity>::new());
    assert_eq!(w.create(), Entity { id: 0, version: 0 });
}
