use union_find::UnionFind;

fn check_disjoint(uf: &mut UnionFind, c1: &[usize], c2: &[usize]) {
    for x in c1 {
        for y in c2 {
            assert!(!uf.connected(*x, *y));
        }
    }
}

fn check_connected(uf: &mut UnionFind, comp: &[usize]) {
    for i in 0..comp.len() - 1 {
        for j in i + 1..comp.len() {
            assert!(uf.connected(comp[i], comp[j]));
        }
    }
}

fn check_components(uf: &mut UnionFind, components: &[&[usize]]) {
    for comp in components {
        check_connected(uf, comp);
    }
    for i in 0..components.len() - 1 {
        for j in i + 1..components.len() {
            check_disjoint(uf, components[i], components[j]);
        }
    }
}

#[test]
fn simple_1() {
    let mut uf = UnionFind::new(7);
    uf.union(0, 1);
    uf.union(1, 2);
    uf.union(1, 3);
    uf.union(1, 4);
    uf.union(5, 6);
    assert_eq!(uf.components(), 2);
    assert_eq!(uf.size(), 7);
    let c1 = [0, 1, 2, 3, 4];
    let c2 = [5, 6];
    check_components(&mut uf, &[&c1, &c2]);
}

#[test]
fn simple_2() {
    let mut uf = UnionFind::new(10);
    for i in 0..9 {
        uf.union(i, i + 1);
    }
    assert_eq!(uf.components(), 1);
    assert_eq!(uf.size(), 10);
    let c1 = [0, 1, 2, 3, 4, 5, 6, 7, 8, 9];
    check_components(&mut uf, &[&c1]);
}

#[test]
fn simple_3() {
    let mut uf = UnionFind::new(10);
    for i in 0..10 {
        if i % 2 == 0 {
            uf.union(i, 2);
        } else if i % 3 == 0 {
            uf.union(i, 3);
        }
    }
    assert_eq!(uf.components(), 5);
    assert_eq!(uf.size(), 10);
    let c1 = [0, 2, 4, 6, 8];
    let c2 = [3, 9];
    let c3 = [1];
    let c4 = [5];
    let c5 = [7];
    check_components(&mut uf, &[&c1, &c2, &c3, &c4, &c5]);
}

#[test]
fn simple_4() {
    let mut uf = UnionFind::new(20);
    for i in 2..uf.size() {
        let mut is_prime = true;
        for j in 2..i {
            if i % j == 0 {
                is_prime = false;
                break;
            }
        }
        let c = match is_prime {
            true => 0,
            false => 1,
        };
        uf.union(i, c);
    }
    assert_eq!(uf.components(), 2);
    let c1 = [2, 3, 5, 7, 11, 13, 17, 19];
    let c2 = [1, 4, 6, 8, 9, 10, 12, 14, 15, 16, 18];
    check_components(&mut uf, &[&c1, &c2]);
}

#[test]
fn fresh_structure_is_all_singletons() {
    let mut uf = UnionFind::new(6);
    assert_eq!(uf.components(), 6);
    assert_eq!(uf.size(), 6);
    for i in 0..6 {
        assert!(uf.connected(i, i));
        for j in 0..6 {
            if i != j {
                assert!(!uf.connected(i, j));
            }
        }
    }
}

#[test]
fn empty_universe() {
    let uf = UnionFind::new(0);
    assert_eq!(uf.components(), 0);
    assert_eq!(uf.size(), 0);
}

#[test]
fn union_is_idempotent() {
    let mut uf = UnionFind::new(5);
    uf.union(1, 3);
    assert_eq!(uf.components(), 4);
    uf.union(1, 3);
    assert_eq!(uf.components(), 4);
    uf.union(3, 1);
    assert_eq!(uf.components(), 4);
    assert!(uf.connected(1, 3));
    assert!(!uf.connected(0, 1));
    assert!(!uf.connected(3, 4));
}

#[test]
fn connected_is_symmetric() {
    let mut uf = UnionFind::new(4);
    uf.union(0, 2);
    for p in 0..4 {
        for q in 0..4 {
            assert_eq!(uf.connected(p, q), uf.connected(q, p));
        }
    }
}

#[test]
fn connected_is_transitive() {
    let mut uf = UnionFind::new(6);
    uf.union(0, 1);
    uf.union(1, 2);
    uf.union(4, 5);
    assert!(uf.connected(0, 1));
    assert!(uf.connected(1, 2));
    assert!(uf.connected(0, 2));
    for a in 0..6 {
        for b in 0..6 {
            for c in 0..6 {
                if uf.connected(a, b) && uf.connected(b, c) {
                    assert!(uf.connected(a, c));
                }
            }
        }
    }
}

#[test]
fn components_drop_by_one_per_merge() {
    let mut uf = UnionFind::new(8);
    let mut expected = 8;
    let pairs = [(0, 1), (2, 3), (1, 0), (0, 2), (4, 4), (5, 6), (3, 1)];
    for (p, q) in pairs {
        let before = uf.components();
        let merged = !uf.connected(p, q);
        uf.union(p, q);
        if merged {
            expected -= 1;
        }
        assert_eq!(uf.components(), expected);
        assert!(uf.components() <= before);
    }
}

#[test]
fn find_is_idempotent() {
    let mut uf = UnionFind::new(7);
    uf.union(0, 1);
    uf.union(1, 2);
    uf.union(5, 6);
    for p in 0..7 {
        let r = uf.find(p);
        assert_eq!(uf.find(r), r);
    }
}

#[test]
fn find_agrees_with_connected() {
    let mut uf = UnionFind::new(5);
    uf.union(0, 4);
    uf.union(1, 2);
    for p in 0..5 {
        for q in 0..5 {
            assert_eq!(uf.find(p) == uf.find(q), uf.connected(p, q));
        }
    }
}

#[test]
fn larger_set_keeps_its_root() {
    let mut uf = UnionFind::new(4);
    uf.union(0, 1);
    // ties go to the first argument's root
    assert_eq!(uf.find(0), 0);
    assert_eq!(uf.find(1), 0);
    // the singleton {2} joins the larger set {0, 1} under the latter's root
    uf.union(2, 0);
    assert_eq!(uf.find(2), 0);
    assert_eq!(uf.find(3), 3);
}
