use raven_ecs::query::QueryItem;
use raven_ecs::world::World;
use raven_ecs::Entity;

const X: u64 = 1;
const Y: u64 = 2;
const Z: u64 = 3;

#[derive(Clone, PartialEq, Debug)]
enum Comp {
    X(String),
    Y(String),
}

fn comp_x(s: &str) -> Comp {
    Comp::X(s.to_string())
}

fn comp_y(s: &str) -> Comp {
    Comp::Y(s.to_string())
}

fn lowercase(c: &mut Comp) {
    match c {
        Comp::X(f) | Comp::Y(f) => *f = f.to_ascii_lowercase(),
    }
}

/// Checks each result against `want`: entity, the instances of X and Y, and their indices.
fn check(w: &World<Comp>, items: &[QueryItem], want: &[(Entity, (Comp, Comp), (usize, usize))]) {
    assert_eq!(items.len(), want.len());
    for (i, item) in items.iter().enumerate() {
        let (want_e, (want_x, want_y), (want_x_n, want_y_n)) = want[i].clone();
        let (x_n, y_n) = (item.indices[0], item.indices[1]);
        assert_eq!(item.indices.len(), 2);
        assert_eq!(item.entity, want_e);
        assert_eq!(*w.get_nth(item.entity, X, x_n).unwrap(), want_x);
        assert_eq!(*w.get_nth(item.entity, Y, y_n).unwrap(), want_y);
        assert_eq!(x_n, want_x_n);
        assert_eq!(y_n, want_y_n);
    }
}

#[test]
fn query_shallow() {
    let mut w: World<Comp> = World::default();

    let e1 = w.create();
    w.attach(e1, X, comp_x("A"));
    w.attach(e1, X, comp_x("B"));
    w.attach(e1, Y, comp_y("C"));
    w.detach_one(e1, X);

    let e2 = w.create();
    w.attach(e2, X, comp_x("D"));
    w.attach(e2, X, comp_x("E"));
    w.attach(e2, Y, comp_y("F"));

    let e3 = w.create();
    w.attach(e3, X, comp_x("G"));
    w.attach(e3, X, comp_x("H"));

    let want = vec![
        (e1, (comp_x("B"), comp_y("C")), (0, 0)),
        (e2, (comp_x("D"), comp_y("F")), (0, 0)),
    ];

    check(&w, &w.query_shallow(&[X, Y]), &want);
}

#[test]
fn query_shallow_mut() {
    let mut w: World<Comp> = World::default();

    let e1 = w.create();
    w.attach(e1, X, comp_x("A"));
    w.attach(e1, X, comp_x("B"));
    w.attach(e1, Y, comp_y("C"));
    w.detach_one(e1, X);

    let e2 = w.create();
    w.attach(e2, X, comp_x("D"));
    w.attach(e2, X, comp_x("E"));
    w.attach(e2, Y, comp_y("F"));

    let e3 = w.create();
    w.attach(e3, X, comp_x("G"));
    w.attach(e3, X, comp_x("H"));

    for item in w.query_shallow(&[X, Y]) {
        lowercase(w.get_nth_mut(item.entity, X, item.indices[0]).unwrap());
        lowercase(w.get_nth_mut(item.entity, Y, item.indices[1]).unwrap());
    }

    let want = vec![
        (e1, (comp_x("b"), comp_y("c")), (0, 0)),
        (e2, (comp_x("d"), comp_y("f")), (0, 0)),
    ];

    check(&w, &w.query_shallow(&[X, Y]), &want);
}

#[test]
fn query_deep() {
    let mut w: World<Comp> = World::default();

    let e1 = w.create();
    w.attach(e1, X, comp_x("A"));
    w.attach(e1, X, comp_x("B"));
    w.attach(e1, Y, comp_y("C"));

    let e2 = w.create();
    w.attach(e2, X, comp_x("D"));
    w.attach(e2, X, comp_x("E"));
    w.attach(e2, Y, comp_y("F"));
    w.attach(e2, Y, comp_y("G"));

    let want = vec![
        (e1, (comp_x("A"), comp_y("C")), (0, 0)),
        (e1, (comp_x("B"), comp_y("C")), (1, 0)),
        (e2, (comp_x("D"), comp_y("F")), (0, 0)),
        (e2, (comp_x("D"), comp_y("G")), (0, 1)),
        (e2, (comp_x("E"), comp_y("F")), (1, 0)),
        (e2, (comp_x("E"), comp_y("G")), (1, 1)),
    ];

    check(&w, &w.query_deep(&[X, Y]), &want);
}

#[test]
fn query_deep_mut() {
    let mut w: World<Comp> = World::default();

    let e1 = w.create();
    w.attach(e1, X, comp_x("A"));
    w.attach(e1, X, comp_x("B"));
    w.attach(e1, Y, comp_y("C"));

    let e2 = w.create();
    w.attach(e2, X, comp_x("D"));
    w.attach(e2, X, comp_x("E"));
    w.attach(e2, Y, comp_y("F"));
    w.attach(e2, Y, comp_y("G"));

    {
        // The third result is (D, F): every D and F becomes lowercase
        let item = w.query_deep(&[X, Y]).into_iter().nth(2).unwrap();
        lowercase(w.get_nth_mut(item.entity, X, item.indices[0]).unwrap());
        lowercase(w.get_nth_mut(item.entity, Y, item.indices[1]).unwrap());
    }

    let want = vec![
        (e1, (comp_x("A"), comp_y("C")), (0, 0)),
        (e1, (comp_x("B"), comp_y("C")), (1, 0)),
        (e2, (comp_x("d"), comp_y("f")), (0, 0)),
        (e2, (comp_x("d"), comp_y("G")), (0, 1)),
        (e2, (comp_x("E"), comp_y("f")), (1, 0)),
        (e2, (comp_x("E"), comp_y("G")), (1, 1)),
    ];

    check(&w, &w.query_deep(&[X, Y]), &want);
}

#[test]
fn shallow_keeps_only_holders_of_every_kind() {
    let mut w: World<Comp> = World::default();

    let a = w.create();
    let b = w.create();
    let c = w.create();
    w.attach(a, X, comp_x("a0"));
    w.attach(a, Y, comp_y("a1"));
    w.attach(b, X, comp_x("b0"));
    w.attach(c, Y, comp_y("c1"));
    w.attach(c, X, comp_x("c0"));

    // X is held by a, b and c, Y by a and c: Y drives.
    let items = w.query_shallow(&[X, Y]);
    let want = vec![
        (a, (comp_x("a0"), comp_y("a1")), (0, 0)),
        (c, (comp_x("c0"), comp_y("c1")), (0, 0)),
    ];
    check(&w, &items, &want);
}

#[test]
fn deep_counts_like_an_odometer() {
    let mut w: World<Comp> = World::default();

    let e = w.create();
    w.attach(e, X, comp_x("A0"));
    w.attach(e, X, comp_x("A1"));
    w.attach(e, Y, comp_y("B0"));
    w.attach(e, Y, comp_y("B1"));

    let want = vec![
        (e, (comp_x("A0"), comp_y("B0")), (0, 0)),
        (e, (comp_x("A0"), comp_y("B1")), (0, 1)),
        (e, (comp_x("A1"), comp_y("B0")), (1, 0)),
        (e, (comp_x("A1"), comp_y("B1")), (1, 1)),
    ];
    check(&w, &w.query_deep(&[X, Y]), &want);
}

#[test]
fn shallow_takes_instance_zero_of_each_kind() {
    let mut w: World<Comp> = World::default();

    let e1 = w.create();
    w.attach(e1, X, comp_x("A"));
    w.attach(e1, X, comp_x("B"));
    w.attach(e1, Y, comp_y("C"));
    let e2 = w.create();
    w.attach(e2, X, comp_x("D"));
    w.attach(e2, Y, comp_y("E"));
    w.attach(e2, Y, comp_y("F"));

    let want = vec![
        (e1, (comp_x("A"), comp_y("C")), (0, 0)),
        (e2, (comp_x("D"), comp_y("E")), (0, 0)),
    ];
    check(&w, &w.query_shallow(&[X, Y]), &want);
}

#[test]
fn a_kind_without_pool_empties_the_query() {
    let mut w: World<Comp> = World::default();

    let e = w.create();
    w.attach(e, X, comp_x("A"));
    assert_eq!(w.query_shallow(&[X, Z]), vec![]);
    assert_eq!(w.query_deep(&[Z, X]), vec![]);
    assert_eq!(w.query_shallow(&[]), vec![]);
    assert_eq!(
        w.query_shallow(&[X]),
        vec![QueryItem { entity: e, indices: vec![0] }]
    );
}

#[test]
fn driving_list_is_the_shortest_first_on_ties() {
    let mut w: World<Comp> = World::default();

    let a = w.create();
    let b = w.create();
    // Y is attached in the order b, a, so its packed order differs from X's.
    w.attach(a, X, comp_x("a"));
    w.attach(b, X, comp_x("b"));
    w.attach(b, Y, comp_y("b"));
    w.attach(a, Y, comp_y("a"));

    let by_x: Vec<Entity> = w.query_shallow(&[X, Y]).iter().map(|q| q.entity).collect();
    let by_y: Vec<Entity> = w.query_shallow(&[Y, X]).iter().map(|q| q.entity).collect();
    assert_eq!(by_x, vec![a, b]);
    assert_eq!(by_y, vec![b, a]);

    // A destroyed entity leaves every pool and every result.
    w.destroy(a);
    let left: Vec<Entity> = w.query_deep(&[X, Y]).iter().map(|q| q.entity).collect();
    assert_eq!(left, vec![b]);
}
