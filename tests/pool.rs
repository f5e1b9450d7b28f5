use rand::distributions::{Distribution, Uniform};
use rand::seq::SliceRandom;
use rand::Rng;
use raven_ecs::pool::{Pool, PAGE_SIZE};

#[derive(Clone, PartialEq, Debug)]
pub struct CompX {
    pub f: String,
}

impl CompX {
    pub fn new(s: &str) -> CompX {
        CompX { f: s.to_string() }
    }
}

/// Checks what the sparse index records for each id of the first page.
fn assert_first_page(p: &Pool<CompX>, want: &[(usize, usize)]) {
    for o in 0..PAGE_SIZE {
        let expected = want.iter().find(|(id, _)| *id == o).map(|(_, k)| *k);
        assert_eq!(p.position_of(o), expected, "entry {}", o);
    }
}

/// The instance lists in packed order.
fn packed_components(p: &Pool<CompX>) -> Vec<Vec<CompX>> {
    p.entities_ids().iter().map(|id| p.get_all(*id).to_vec()).collect()
}

#[test]
fn count() {
    let mut p: Pool<CompX> = Pool::new();

    p.attach(0, CompX::new("A"));
    p.attach(0, CompX::new("B"));
    p.attach(0, CompX::new("C"));
    p.attach(0, CompX::new("D"));
    p.attach(0, CompX::new("E"));

    assert_eq!(p.count(0), 5);
}

#[test]
fn get_nth() {
    let mut p: Pool<CompX> = Pool::new();

    p.attach(0, CompX::new("A"));
    p.attach(0, CompX::new("B"));

    assert_eq!(p.get_nth(0, 0), Some(&CompX::new("A")));
    assert_eq!(p.get_nth(0, 1), Some(&CompX::new("B")));
    assert_eq!(p.get_nth(0, 2), None);
}

#[test]
fn get_nth_mut() {
    let mut p: Pool<CompX> = Pool::new();

    p.attach(0, CompX::new("A"));
    p.attach(0, CompX::new("B"));

    *p.get_nth_mut(0, 1).unwrap() = CompX::new("Z");

    assert_eq!(p.get_nth(0, 0), Some(&CompX::new("A")));
    assert_eq!(p.get_nth(0, 1), Some(&CompX::new("Z")));
    assert_eq!(p.get_nth(0, 2), None);
}

#[test]
fn get_one() {
    let mut p: Pool<CompX> = Pool::new();

    p.attach(0, CompX::new("A"));
    assert_eq!(p.get_one(0), Some(&CompX::new("A")));
}

#[test]
fn get_mut_mut() {
    let mut p: Pool<CompX> = Pool::new();

    p.attach(0, CompX::new("A"));
    *p.get_one_mut(0).unwrap() = CompX::new("Z");
    assert_eq!(p.get_one(0), Some(&CompX::new("Z")));
}

#[test]
fn pool_get_all() {
    let mut p: Pool<CompX> = Pool::new();

    p.attach(0, CompX::new("A"));
    p.attach(0, CompX::new("B"));
    p.attach(0, CompX::new("C"));

    assert_eq!(
        p.get_all(0).iter().collect::<Vec<_>>(),
        vec![&CompX::new("A"), &CompX::new("B"), &CompX::new("C")]
    );
}

#[test]
fn pool_get_all_mut() {
    let mut p: Pool<CompX> = Pool::new();

    p.attach(0, CompX::new("A"));
    p.attach(0, CompX::new("B"));
    p.attach(0, CompX::new("C"));

    for n in 0..p.count(0) {
        let c = p.get_nth_mut(0, n).unwrap();
        c.f = c.f.to_ascii_lowercase();
    }

    assert_eq!(
        p.get_all(0).iter().collect::<Vec<_>>(),
        vec![&CompX::new("a"), &CompX::new("b"), &CompX::new("c")]
    );
}

#[test]
fn sparse_grows() {
    let mut p: Pool<CompX> = Pool::new();

    assert_eq!(p.pages(), 0);
    p.attach(0, CompX::new("A"));
    assert_eq!(p.pages(), 1);
    p.attach(99, CompX::new("B")); // Still in the first page
    assert_eq!(p.pages(), 1);
    p.attach(100, CompX::new("C")); // Goes to the second page
    assert_eq!(p.pages(), 2);
}

#[test]
fn sparse_shrinks() {
    let mut p: Pool<CompX> = Pool::new();

    p.attach(0, CompX::new("A"));
    p.attach(PAGE_SIZE - 1, CompX::new("B"));
    p.attach(PAGE_SIZE, CompX::new("C"));

    assert_eq!(p.pages(), 2);
    p.detach_one(0);
    assert_eq!(p.pages(), 2);
    p.detach_one(PAGE_SIZE - 1);
    assert_eq!(p.pages(), 2);
    p.detach_one(PAGE_SIZE);
    assert_eq!(p.pages(), 0);
}

#[test]
fn packed_arrays_len() {
    let mut p: Pool<CompX> = Pool::new();

    let assert_len_is = |p: &Pool<CompX>, len: usize| {
        assert_eq!(p.entities_ids().len(), len);
        assert_eq!(packed_components(p).len(), len);
    };

    assert_len_is(&p, 0);
    p.attach(0, CompX::new("A"));
    assert_len_is(&p, 1);
    p.attach(PAGE_SIZE - 1, CompX::new("B"));
    assert_len_is(&p, 2);
    p.attach(PAGE_SIZE, CompX::new("C"));
    assert_len_is(&p, 3);
    p.detach_one(0);
    assert_len_is(&p, 2);
    p.detach_one(PAGE_SIZE - 1);
    assert_len_is(&p, 1);
    p.detach_one(PAGE_SIZE);
    assert_len_is(&p, 0);
}

#[test]
fn remove_returns_component() {
    let mut p: Pool<CompX> = Pool::new();

    p.attach(0, CompX::new("Z"));
    assert_eq!(p.detach_one(0), Some(CompX::new("Z")));
}

#[test]
fn remove_non_repeatable() {
    let mut p: Pool<CompX> = Pool::new();

    p.attach(0, CompX::new("Z"));
    p.detach_one(0); // Should be Some(CompX {f: "Z"})
    assert_eq!(p.detach_one(0), None);
}

#[test]
fn simple_add() {
    let mut p: Pool<CompX> = Pool::new();

    p.attach(0, CompX::new("A"));
    p.attach(1, CompX::new("B"));

    assert_eq!(p.pages(), 1);
    assert_first_page(&p, &[(0, 0), (1, 1)]);

    assert_eq!(p.entities_ids(), vec![0, 1]);

    assert_eq!(packed_components(&p), vec![vec![CompX::new("A")], vec![CompX::new("B")]]);

    assert_eq!(p.get_one(0), Some(&CompX::new("A")));
    assert_eq!(p.get_one(1), Some(&CompX::new("B")));
}

#[test]
fn add_not_adjacent() {
    let mut p: Pool<CompX> = Pool::new();

    p.attach(0, CompX::new("A"));
    p.attach(2, CompX::new("B"));

    assert_eq!(p.pages(), 1);
    assert_first_page(&p, &[(0, 0), (2, 1)]);

    assert_eq!(p.entities_ids(), vec![0, 2]);

    assert_eq!(packed_components(&p), vec![vec![CompX::new("A")], vec![CompX::new("B")]]);

    assert_eq!(p.get_one(0), Some(&CompX::new("A")));
    assert_eq!(p.get_one(2), Some(&CompX::new("B")));
}

#[test]
fn simple_remove_left() {
    let mut p: Pool<CompX> = Pool::new();

    p.attach(0, CompX::new("A"));
    p.attach(1, CompX::new("B"));

    p.detach_one(0);

    assert_eq!(p.pages(), 1);
    assert_first_page(&p, &[(1, 0)]);

    assert_eq!(p.entities_ids(), vec![1]);

    assert_eq!(packed_components(&p), vec![vec![CompX::new("B")]]);

    assert_eq!(p.get_one(0), None);
    assert_eq!(p.get_one(1), Some(&CompX::new("B")));
}

#[test]
fn simple_remove_right() {
    let mut p: Pool<CompX> = Pool::new();

    p.attach(0, CompX::new("A"));
    p.attach(1, CompX::new("B"));

    p.detach_one(1);

    assert_eq!(p.pages(), 1);
    assert_first_page(&p, &[(0, 0)]);

    assert_eq!(p.entities_ids(), vec![0]);

    assert_eq!(packed_components(&p), vec![vec![CompX::new("A")]]);

    assert_eq!(p.get_one(0), Some(&CompX::new("A")));
    assert_eq!(p.get_one(1), None);
}

#[test]
fn remove_not_adjacent_left() {
    let mut p: Pool<CompX> = Pool::new();

    p.attach(0, CompX::new("A"));
    p.attach(2, CompX::new("B"));

    p.detach_one(0);

    assert_eq!(p.pages(), 1);
    assert_first_page(&p, &[(2, 0)]);

    assert_eq!(p.entities_ids(), vec![2]);

    assert_eq!(packed_components(&p), vec![vec![CompX::new("B")]]);

    assert_eq!(p.get_one(0), None);
    assert_eq!(p.get_one(1), None);
    assert_eq!(p.get_one(2), Some(&CompX::new("B")));
}

#[test]
fn remove_not_adjacent_right() {
    let mut p: Pool<CompX> = Pool::new();

    p.attach(0, CompX::new("A"));
    p.attach(2, CompX::new("B"));

    p.detach_one(2);

    assert_eq!(p.pages(), 1);
    assert_first_page(&p, &[(0, 0)]);

    assert_eq!(p.entities_ids(), vec![0]);

    assert_eq!(packed_components(&p), vec![vec![CompX::new("A")]]);

    assert_eq!(p.get_one(0), Some(&CompX::new("A")));
    assert_eq!(p.get_one(1), None);
    assert_eq!(p.get_one(2), None);
}

#[test]
fn rand_io() {
    const N_TARGET_ENTITIES_PER_PAGE: usize = PAGE_SIZE / 10;
    const N_TARGET_PAGES: usize = 10;

    let mut rng = rand::thread_rng();
    let dist = Uniform::from(0..PAGE_SIZE * N_TARGET_PAGES);

    // A random number of random entities, each with a component holding its id. The bool
    // tracks whether the entity should still be in the pool.
    let mut entities: Vec<(usize, CompX, bool)> = Vec::new();
    for _ in 0..rng.gen_range(0..PAGE_SIZE * N_TARGET_ENTITIES_PER_PAGE) {
        let id: usize = loop {
            let new_id = dist.sample(&mut rng);
            if entities.iter().find(|(id, _, _)| *id == new_id).is_none() {
                break new_id;
            }
        };

        entities.push((id, CompX::new(&id.to_string()), true));
    }

    let mut p: Pool<CompX> = Pool::new();
    for (entity_id, component, _) in entities.iter().cloned() {
        p.attach(entity_id, component);
    }

    entities.shuffle(&mut rng);

    loop {
        for (entity_id, component, alive) in entities.iter().cloned() {
            if alive {
                assert_eq!(p.get_one(entity_id), Some(&component));
            } else {
                assert_eq!(p.get_one(entity_id), None);
            }
        }

        // Detach the first entity still present
        if let Some((entity_id, _, alive)) = entities.iter_mut().find(|(_, _, alive)| *alive) {
            *alive = false;
            p.detach_one(*entity_id);
        } else {
            break;
        }
    }

    assert_eq!(p.pages(), 0);
    assert_eq!(p.entities_ids().len(), 0);
    assert_eq!(packed_components(&p).len(), 0);
}

#[test]
fn detach_keeps_order_and_drops_last_page() {
    let mut p: Pool<CompX> = Pool::new();

    p.attach(150, CompX::new("A"));
    p.attach(150, CompX::new("B"));
    p.attach(150, CompX::new("C"));
    p.attach(3, CompX::new("D"));
    assert_eq!(p.pages(), 2);
    assert_eq!(p.count(150), 3);

    assert_eq!(p.detach_one(150), Some(CompX::new("A")));
    assert_eq!(p.get_all(150).to_vec(), vec![CompX::new("B"), CompX::new("C")]);

    assert_eq!(p.detach_all(150), vec![CompX::new("B"), CompX::new("C")]);
    assert_eq!(p.get_all(150).len(), 0);
    assert_eq!(p.entities_ids(), vec![3]);
    assert_eq!(p.position_of(3), Some(0));
    assert_eq!(p.pages(), 1);

    assert_eq!(p.detach_all(150), Vec::<CompX>::new());
    assert_eq!(p.detach_one(7), None);
}

#[test]
fn swap_removal_moves_the_last_holder() {
    let mut p: Pool<CompX> = Pool::new();

    p.attach(5, CompX::new("A"));
    p.attach(205, CompX::new("B"));
    p.attach(42, CompX::new("C"));

    p.detach_all(5);
    assert_eq!(p.entities_ids(), vec![42, 205]);
    assert_eq!(p.position_of(42), Some(0));
    assert_eq!(p.position_of(205), Some(1));
    assert_eq!(p.position_of(5), None);
    assert_eq!(p.get_one(42), Some(&CompX::new("C")));
    assert_eq!(p.pages(), 3);

    p.detach_all(205);
    assert_eq!(p.pages(), 1);
}
