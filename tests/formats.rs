use tokenviz::board::{Coord, Input};
use tokenviz::parse::{get_max_turn, parse_input, parse_output};
use tokenviz::render::{fill_str, rect, render, to_svg, vis, vis_text, Drawing, Fill, Segment, Square};

#[test]
fn max_turn_of_five_moves() {
    let out = "5\n0 0 0 1\n0 1 1 1\n1 1 1 0\n1 0 0 0\n0 0 1 1\n";
    assert_eq!(get_max_turn(out), Some(5));
    assert_eq!(get_max_turn("5\n"), None);
    assert_eq!(get_max_turn(""), None);
}

#[test]
fn reads_move_log() {
    let o = parse_output("2\n0 0 0 1\n  0 1\t1 1\n").unwrap();
    assert_eq!(o.L, 2);
    assert_eq!(o.actions, vec![
        (Coord { y: 0, x: 0 }, Coord { y: 0, x: 1 }),
        (Coord { y: 0, x: 1 }, Coord { y: 1, x: 1 }),
    ]);
    assert!(parse_output("1\n0 0 -1 1\n").is_none());
    assert!(parse_output("x").is_none());
    assert_eq!(parse_output("+0").unwrap().L, 0);
}

#[test]
fn reads_board() {
    let b = parse_input("2\n1\n1 -1\n0 +0\n").unwrap();
    assert_eq!(b.N, 2);
    assert_eq!(b.C, 1);
    assert_eq!(b.grid, vec![vec![1, -1], vec![0, 0]]);
    assert!(parse_input("2 1 1 0 0").is_none());
    assert!(parse_input("2 1 1 0 0 z").is_none());
    assert!(parse_input("1 1 99999999999999999999").is_none());
    assert_eq!(parse_input("1 1 -9223372036854775808").unwrap().grid, vec![vec![isize::MIN]]);
}

#[test]
fn writes_board_text() {
    let b = Input { N: 2, C: 1, grid: vec![vec![1, -1], vec![0, 0]] };
    assert_eq!(b.to_text(), "2\n1\n1 -1\n0 0\n");
    let back = parse_input(&b.to_text()).unwrap();
    assert_eq!(back.grid, b.grid);
}

#[test]
fn renders_squares_and_segments() {
    let b = Input { N: 2, C: 1, grid: vec![vec![1, -1], vec![0, 0]] };
    let snap = vec![vec![0, -1], vec![0, 1]];
    let o = parse_output("1\n0 0 1 1\n").unwrap();
    let d = render(&b, &snap, &o, &vec![0]);
    assert_eq!(d.cell, 300);
    assert_eq!(d.squares.len(), 4);
    assert_eq!(d.squares[1], Square { top: 0, left: 300, size: 300, fill: Fill::Gray });
    assert_eq!(d.squares[3], Square { top: 300, left: 300, size: 300, fill: Fill::Palette(1) });
    assert_eq!(d.segments, vec![Segment { x1: 150, y1: 150, x2: 450, y2: 450 }]);
    let n7 = Input { N: 7, C: 1, grid: vec![vec![0; 7]; 7] };
    let d7 = render(&n7, &n7.grid, &o, &vec![]);
    assert_eq!(d7.cell, 85);
    assert_eq!(d7.squares[8].top, 85);
}

#[test]
fn fill_names() {
    assert_eq!(fill_str(Fill::Gray), "gray");
    assert_eq!(fill_str(Fill::Palette(0)), "white");
    assert_eq!(fill_str(Fill::Palette(6)), "purple");
}

#[test]
fn draws_svg() {
    let b = Input { N: 2, C: 1, grid: vec![vec![1, 0], vec![0, 0]] };
    let o = parse_output("2\n0 0 0 1\n0 1 1 1\n").unwrap();
    let (score, err, svg) = vis(&b, &o, 2);
    assert_eq!(score, 0);
    assert_eq!(err, "");
    assert!(svg.contains("<svg"));
    assert!(svg.contains("blue"));
    assert!(svg.contains("<line"));
    assert!(svg.contains("viewBox=\"-5 -5 610 610\""));
}

#[test]
fn draws_from_text() {
    let input = "2\n1\n1 0\n0 0\n";
    let r = vis_text(input, "2\n0 0 0 1\n0 1 1 1\n", 1).unwrap();
    assert_eq!(r.0, 0);
    assert!(r.2.contains("blue"));
    assert!(vis_text(input, "", 0).is_some());
    assert!(vis_text(input, "", 1).is_none());
    assert!(vis_text(input, "1\n0 0 5 5\n", 1).is_none());
    assert!(vis_text("0\n1\n", "", 0).is_none());
    assert!(vis_text(input, "1\n0 0 5 5\n", 0).is_some());
}

#[test]
fn rect_attributes_written() {
    let r = rect(1, 2, 3, 4, "red");
    assert_eq!(r.to_string(), "<rect fill=\"red\" height=\"4\" width=\"3\" x=\"2\" y=\"1\"/>");
}

#[test]
fn svg_of_small_drawing() {
    let d = Drawing {
        cell: 300,
        squares: vec![Square { top: 0, left: 0, size: 300, fill: Fill::Palette(2) }],
        segments: vec![Segment { x1: 1, y1: 2, x2: 3, y2: 4 }],
    };
    let text = to_svg(&d, 1);
    assert!(text.starts_with("<svg height=\"310\" stroke=\"gray\" stroke-width=\"1\" viewBox=\"-5 -5 310 310\" width=\"310\""));
    assert!(text.contains("<rect fill=\"red\" height=\"300\" width=\"300\" x=\"0\" y=\"0\"/>"));
    assert!(text.contains("<line stroke=\"lightgray\" stroke-linecap=\"round\" stroke-width=\"10\" x1=\"1\" x2=\"3\" y1=\"2\" y2=\"4\"/>"));
    assert!(text.find("<rect").unwrap() < text.find("<line").unwrap());
}
