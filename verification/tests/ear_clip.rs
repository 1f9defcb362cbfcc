use geolis::ear_clip::EarClipper;
use geolis::error::OperationError;

fn invalid_input(r: Result<EarClipper, OperationError>) -> String {
    match r {
        Err(OperationError::InvalidInput(m)) => m,
        other => panic!("expected InvalidInput, got {other:?}"),
    }
}

#[test]
fn clipper_refuses_too_few_vertices_and_flat_rings() {
    assert_eq!(
        invalid_input(EarClipper::new(2, true, true)),
        "polygon triangulation needs at least 3 vertices, got 2"
    );
    assert_eq!(
        invalid_input(EarClipper::new(0, false, true)),
        "polygon triangulation needs at least 3 vertices, got 0"
    );
    assert_eq!(
        invalid_input(EarClipper::new(4, false, true)),
        "polygon triangulation needs an XY projection that encloses area"
    );
}

#[test]
fn clipper_walks_counter_clockwise_rings_forward_and_others_backward() {
    let ccw = EarClipper::new(4, true, true).unwrap();
    assert_eq!(ccw.remaining(), &vec![0, 1, 2, 3]);
    assert!(ccw.triangles().is_empty());
    let cw = EarClipper::new(4, true, false).unwrap();
    assert_eq!(cw.remaining(), &vec![3, 2, 1, 0]);
}

#[test]
fn corners_wrap_around_the_ring() {
    let c = EarClipper::new(5, true, true).unwrap();
    assert_eq!(c.corner(0), [4, 0, 1]);
    assert_eq!(c.corner(2), [1, 2, 3]);
    assert_eq!(c.corner(4), [3, 4, 0]);
}

#[test]
fn triangulating_a_pentagon_uses_every_vertex() {
    let mut c = EarClipper::new(5, true, true).unwrap();
    c.clip(Some(1)).unwrap();
    assert_eq!(c.remaining(), &vec![0, 2, 3, 4]);
    assert_eq!(c.triangles(), &vec![[0, 1, 2]]);
    c.clip(Some(0)).unwrap();
    assert_eq!(c.remaining(), &vec![2, 3, 4]);
    let tris = c.finish();
    assert_eq!(tris, vec![[0, 1, 2], [4, 0, 2], [2, 3, 4]]);
    assert_eq!(tris.len(), 5 - 2);
    for v in 0..5 {
        assert!(tris.iter().any(|t| t.contains(&v)));
    }
}

fn sides_joining(tris: &[[usize; 3]], a: usize, b: usize) -> usize {
    tris.iter()
        .filter(|t| {
            (0..3).any(|i| {
                let (c, d) = (t[i], t[(i + 1) % 3]);
                (c == a && d == b) || (c == b && d == a)
            })
        })
        .count()
}

#[test]
fn interior_diagonals_are_shared_by_two_triangles() {
    // Hexagon walked clockwise (ring 5..0), clipping at varying positions.
    let n = 6;
    let mut c = EarClipper::new(n, true, false).unwrap();
    c.clip(Some(2)).unwrap();
    c.clip(Some(0)).unwrap();
    c.clip(Some(1)).unwrap();
    let tris = c.finish();
    assert_eq!(tris.len(), n - 2);
    for a in 0..n {
        for b in 0..n {
            if a == b {
                continue;
            }
            let count = sides_joining(&tris, a, b);
            if (a + 1) % n == b || (b + 1) % n == a {
                assert_eq!(count, 1, "edge {a}-{b}");
            } else {
                assert!(count == 0 || count == 2, "pair {a}-{b} used {count} times");
            }
        }
    }
    assert_eq!(tris, vec![[4, 3, 2], [0, 5, 4], [4, 2, 1], [4, 1, 0]]);
    assert_eq!(sides_joining(&tris, 4, 2), 2);
    assert_eq!(sides_joining(&tris, 0, 4), 2);
    assert_eq!(sides_joining(&tris, 4, 1), 2);
    assert_eq!(sides_joining(&tris, 5, 2), 0);
}

#[test]
fn a_triangle_is_its_own_triangulation() {
    let c = EarClipper::new(3, true, false).unwrap();
    assert_eq!(c.finish(), vec![[2, 1, 0]]);
}

#[test]
fn no_ear_fails_the_triangulation_and_keeps_the_state() {
    let mut c = EarClipper::new(4, true, true).unwrap();
    match c.clip(None) {
        Err(OperationError::Failed(m)) => assert_eq!(
            m,
            "polygon triangulation found no ear: the XY projection is not a simple polygon"
        ),
        other => panic!("expected Failed, got {other:?}"),
    }
    assert_eq!(c.remaining(), &vec![0, 1, 2, 3]);
    assert!(c.triangles().is_empty());
}
