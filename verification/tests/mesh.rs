use axial::mesh::Kind::{Final, Initial, Inside, Single};
use axial::mesh::{greedy2d, judge, render, Kind, Verdict};
use axial::quad::quad_ref;

fn strips() -> Vec<u64> {
    vec![
        quad_ref(3, (0, 0, 0), 0, 0, 0),
        quad_ref(1, (1, 0, 0), 0, 4, 0),
        quad_ref(4, (6, 0, 0), 0, 1, 0),
        quad_ref(3, (0, 1, 0), 0, 0, 0),
        quad_ref(1, (1, 1, 0), 0, 4, 0),
        quad_ref(4, (6, 1, 0), 0, 1, 0),
        quad_ref(3, (0, 2, 0), 0, 0, 0),
        quad_ref(1, (1, 2, 0), 0, 0, 0),
        quad_ref(1, (4, 2, 0), 0, 1, 0),
        quad_ref(4, (6, 2, 0), 0, 1, 0),
        quad_ref(3, (0, 3, 0), 0, 0, 0),
        quad_ref(1, (1, 3, 0), 0, 1, 0),
        quad_ref(2, (5, 3, 0), 0, 2, 0),
        quad_ref(3, (0, 4, 0), 0, 0, 0),
        quad_ref(1, (1, 4, 0), 0, 2, 0),
        quad_ref(2, (4, 4, 0), 0, 3, 0),
        quad_ref(3, (0, 5, 0), 0, 0, 0),
        quad_ref(1, (1, 5, 0), 0, 1, 0),
        quad_ref(1, (5, 5, 0), 0, 2, 0),
        quad_ref(3, (0, 6, 0), 0, 0, 0),
        quad_ref(1, (1, 6, 0), 0, 2, 0),
        quad_ref(2, (4, 6, 0), 0, 3, 0),
        quad_ref(3, (0, 7, 0), 0, 0, 0),
        quad_ref(1, (1, 7, 0), 0, 2, 0),
        quad_ref(2, (4, 7, 0), 0, 3, 0),
    ]
}

#[test]
fn sweep_merges_the_strips_of_the_sample() {
    let mut mesh = strips();
    greedy2d(&mut mesh);
    assert_eq!(
        mesh,
        vec![
            quad_ref(1, (1, 0, 0), 0, 4, 1),
            quad_ref(1, (1, 2, 0), 0, 0, 0),
            quad_ref(1, (4, 2, 0), 0, 1, 0),
            quad_ref(4, (6, 0, 0), 0, 1, 2),
            quad_ref(1, (1, 3, 0), 0, 1, 0),
            quad_ref(2, (5, 3, 0), 0, 2, 0),
            quad_ref(1, (1, 4, 0), 0, 2, 0),
            quad_ref(2, (4, 4, 0), 0, 3, 0),
            quad_ref(1, (1, 5, 0), 0, 1, 0),
            quad_ref(1, (5, 5, 0), 0, 2, 0),
            quad_ref(3, (0, 0, 0), 0, 0, 7),
            quad_ref(1, (1, 6, 0), 0, 2, 1),
            quad_ref(2, (4, 6, 0), 0, 3, 1),
        ]
    );
}

#[test]
fn sweep_of_small_lists() {
    let mut empty: Vec<u64> = Vec::new();
    greedy2d(&mut empty);
    assert!(empty.is_empty());

    let mut pair = vec![quad_ref(1, (0, 0, 0), 0, 1, 0), quad_ref(1, (0, 1, 0), 0, 1, 0)];
    greedy2d(&mut pair);
    assert_eq!(pair, vec![quad_ref(1, (0, 0, 0), 0, 1, 1)]);

    let mut colours = vec![quad_ref(1, (0, 0, 0), 0, 1, 0), quad_ref(2, (0, 1, 0), 0, 1, 0)];
    greedy2d(&mut colours);
    assert_eq!(
        colours,
        vec![quad_ref(1, (0, 0, 0), 0, 1, 0), quad_ref(2, (0, 1, 0), 0, 1, 0)]
    );

    let mut gap = vec![quad_ref(1, (0, 0, 0), 0, 1, 0), quad_ref(1, (0, 2, 0), 0, 1, 0)];
    greedy2d(&mut gap);
    assert_eq!(gap, vec![quad_ref(1, (0, 0, 0), 0, 1, 0), quad_ref(1, (0, 2, 0), 0, 1, 0)]);

    let mut column = vec![
        quad_ref(1, (0, 0, 0), 0, 0, 0),
        quad_ref(1, (0, 1, 0), 0, 0, 0),
        quad_ref(1, (0, 2, 0), 0, 0, 0),
    ];
    greedy2d(&mut column);
    assert_eq!(column, vec![quad_ref(1, (0, 0, 0), 0, 0, 2)]);

    let mut left = vec![
        quad_ref(1, (2, 0, 0), 0, 0, 0),
        quad_ref(1, (0, 1, 0), 0, 0, 0),
        quad_ref(1, (2, 1, 0), 0, 0, 0),
    ];
    greedy2d(&mut left);
    assert_eq!(left, vec![quad_ref(1, (0, 1, 0), 0, 0, 0), quad_ref(1, (2, 0, 0), 0, 0, 1)]);

    let mut tall = vec![quad_ref(1, (0, 0, 0), 0, 0, 3)];
    greedy2d(&mut tall);
    assert_eq!(tall, vec![quad_ref(1, (0, 0, 0), 0, 0, 3)]);
}

#[test]
fn verdicts() {
    let back = quad_ref(1, (2, 3, 0), 0, 1, 1);
    assert_eq!(judge(back, quad_ref(9, (0, 4, 0), 0, 0, 0)), Verdict::Skip);
    assert_eq!(judge(back, quad_ref(1, (2, 5, 0), 0, 1, 0)), Verdict::Merge);
    assert_eq!(judge(back, quad_ref(1, (4, 5, 0), 0, 1, 0)), Verdict::Merge);
    assert_eq!(judge(back, quad_ref(1, (2, 5, 0), 0, 2, 0)), Verdict::Emit);
    assert_eq!(judge(back, quad_ref(2, (2, 5, 0), 0, 1, 0)), Verdict::Emit);
    assert_eq!(judge(back, quad_ref(1, (1, 5, 0), 0, 1, 0)), Verdict::Skip);
    assert_eq!(judge(back, quad_ref(1, (2, 6, 0), 0, 1, 0)), Verdict::Emit);
    assert_eq!(judge(back, quad_ref(1, (2, 3, 0), 0, 1, 0)), Verdict::Emit);
}

#[test]
fn render_draws_each_quad_over_the_earlier_ones() {
    let mut mesh = strips();
    greedy2d(&mut mesh);
    let mut screen = [[(0u16, Kind::Initial); 8]; 8];
    render(&mesh, &mut screen);
    assert_eq!(
        screen[0],
        [
            (3, Initial),
            (1, Initial),
            (1, Inside),
            (1, Inside),
            (1, Inside),
            (1, Inside),
            (4, Initial),
            (4, Inside)
        ]
    );
    assert_eq!(
        screen[2],
        [
            (3, Inside),
            (1, Single),
            (0, Initial),
            (0, Initial),
            (1, Initial),
            (1, Final),
            (4, Inside),
            (4, Final)
        ]
    );
    assert_eq!(
        screen[7],
        [
            (3, Final),
            (1, Inside),
            (1, Inside),
            (1, Final),
            (2, Inside),
            (2, Inside),
            (2, Inside),
            (2, Final)
        ]
    );
}

#[test]
fn render_keeps_cells_that_no_quad_covers() {
    let mut screen = [[(7u16, Kind::Inside); 8]; 8];
    render(&[quad_ref(0x1_0005, (1, 1, 0), 0, 1, 0)], &mut screen);
    assert_eq!(screen[0], [(7u16, Kind::Inside); 8]);
    assert_eq!(screen[1][0], (7, Kind::Inside));
    assert_eq!(screen[1][1], (5, Kind::Initial));
    assert_eq!(screen[1][2], (5, Kind::Final));
    assert_eq!(screen[1][3], (7, Kind::Inside));
}

#[test]
fn glyphs() {
    assert_eq!(Kind::Initial.glyph(), "\u{2588}\u{2588}");
    assert_eq!(Kind::Inside.glyph(), "\u{2591}\u{2591}");
    assert_eq!(Kind::Final.glyph(), "\u{2592}\u{2592}");
    assert_eq!(Kind::Single.glyph(), "\u{2588}\u{2592}");
}
