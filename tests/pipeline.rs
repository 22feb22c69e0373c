use arcweld::chain::{GridPoint, Segment};
use arcweld::codec::{Drawing, Entity};
use arcweld::pipeline::weld_drawing;
use arcweld::weld::Piece;

fn line(x1: i64, y1: i64, x2: i64, y2: i64) -> (Entity, Segment) {
    (
        Entity::Line { x1: x1.to_string(), y1: y1.to_string(), x2: x2.to_string(), y2: y2.to_string() },
        Segment { from: GridPoint { x: x1, y: y1 }, to: GridPoint { x: x2, y: y2 } },
    )
}

fn drawing(items: Vec<(Entity, Segment)>) -> (Drawing, Vec<Segment>) {
    let mut entities = vec![];
    let mut segs = vec![];
    for (e, s) in items {
        entities.push(e);
        segs.push(s);
    }
    (Drawing { entities }, segs)
}

#[test]
fn two_chains_welded_separately() {
    let (d, segs) = drawing(vec![line(10, 0, 11, 0), line(0, 0, 1, 0), line(1, 0, 2, 0), line(11, 0, 12, 0)]);
    let r = weld_drawing(&d, &segs, 3, |_c: &Vec<usize>, _x: usize, _y: usize| false, |_c: &Vec<usize>, _a: usize, _i: usize| true)
        .ok()
        .unwrap();
    assert_eq!(r.len(), 2);
    assert_eq!(r[0].0, vec![1, 2]);
    assert_eq!(r[0].1, vec![Piece::Arc { start: 0, end: 2 }]);
    assert_eq!(r[1].0, vec![0, 3]);
}

#[test]
fn non_line_input_is_refused() {
    let (mut d, mut segs) = drawing(vec![line(0, 0, 1, 0)]);
    d.entities.push(Entity::Circle { cx: "0".to_string(), cy: "0".to_string(), radius: "1".to_string() });
    segs.push(Segment { from: GridPoint { x: 0, y: 0 }, to: GridPoint { x: 0, y: 0 } });
    let e = weld_drawing(&d, &segs, 3, |_c: &Vec<usize>, _x: usize, _y: usize| false, |_c: &Vec<usize>, _a: usize, _i: usize| true)
        .err()
        .unwrap();
    assert_eq!(e.message, "cannot weld a drawing with an entity other than LINE");
}

#[test]
fn small_min_segments_is_refused_unless_empty() {
    let (d, segs) = drawing(vec![line(0, 0, 1, 0)]);
    assert!(weld_drawing(&d, &segs, 2, |_c: &Vec<usize>, _x: usize, _y: usize| false, |_c: &Vec<usize>, _a: usize, _i: usize| true).is_err());
    let (d, segs) = drawing(vec![]);
    let r = weld_drawing(&d, &segs, 2, |_c: &Vec<usize>, _x: usize, _y: usize| false, |_c: &Vec<usize>, _a: usize, _i: usize| true);
    assert!(r.ok().unwrap().is_empty());
}
